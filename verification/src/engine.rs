//! The in-memory store: one ordered map per column family.

use vstd::prelude::*;

use crate::MAX_SEQUENCE_NUMBER;
use crate::byteorder::{bytes_lt, lex_le, lex_lt};
use crate::codec::{ValueType, rev_of_seq, rev_of_seq_exec, tag_of, value_type_tag};
use crate::model::{CfModel, wf_contents};
use crate::store::{CfStore, IKeyModel, ikey_le, ikey_lt, ikey_view, lemma_ikey_lt_irreflexive,
    lemma_ikey_lt_transitive, store_contents, store_insert, store_new, store_remove,
    store_seek_ge};

verus! {

/// A column family of the cache. `Raft` names the durable engine's
/// bookkeeping family, which the in-memory tier does not cache.
#[derive(Clone, Copy, PartialEq, Eq, Structural, Debug)]
pub enum CfName {
    Default,
    Lock,
    Write,
    Raft,
}

/// The three cached column families, each its own ordered map.
pub struct SkiplistEngine {
    pub default_cf: CfStore,
    pub lock_cf: CfStore,
    pub write_cf: CfStore,
}

/// Whether a user key falls in the half-open range `[start, end)`.
pub open spec fn key_in_range(uk: Seq<u8>, start: Seq<u8>, end: Seq<u8>) -> bool {
    lex_le(start, uk) && lex_lt(uk, end)
}

impl SkiplistEngine {
    /// The contents of one cached column family.
    pub open spec fn cf(self, cf: CfName) -> CfModel {
        match cf {
            CfName::Default => store_contents(self.default_cf),
            CfName::Lock => store_contents(self.lock_cf),
            CfName::Write => store_contents(self.write_cf),
            CfName::Raft => Map::empty(),
        }
    }

    pub open spec fn wf(self) -> bool {
        &&& wf_contents(store_contents(self.default_cf))
        &&& wf_contents(store_contents(self.lock_cf))
        &&& wf_contents(store_contents(self.write_cf))
    }

    pub fn new() -> (r: SkiplistEngine)
        ensures
            r.wf(),
            r.cf(CfName::Default) =~= Map::empty(),
            r.cf(CfName::Lock) =~= Map::empty(),
            r.cf(CfName::Write) =~= Map::empty(),
    {
        SkiplistEngine { default_cf: store_new(), lock_cf: store_new(), write_cf: store_new() }
    }

    /// Borrows one cached column family's map.
    pub fn cf_store(&self, cf: CfName) -> (r: &CfStore)
        requires
            cf != CfName::Raft,
        ensures
            store_contents(*r) == self.cf(cf),
    {
        match cf {
            CfName::Default => &self.default_cf,
            CfName::Lock => &self.lock_cf,
            CfName::Write => &self.write_cf,
            CfName::Raft => &self.default_cf,
        }
    }

    /// Inserts one internal record: a live value or a tombstone for
    /// `user_key` at sequence `seq_num`.
    pub fn put_entry(
        &mut self,
        cf: CfName,
        user_key: &[u8],
        seq_num: u64,
        vt: ValueType,
        value: Vec<u8>,
    )
        requires
            old(self).wf(),
            cf != CfName::Raft,
            seq_num <= MAX_SEQUENCE_NUMBER,
        ensures
            final(self).wf(),
            final(self).cf(cf) == old(self).cf(cf).insert(
                (user_key@, rev_of_seq(seq_num), tag_of(vt)),
                value@,
            ),
            forall|other: CfName| other != cf ==> final(self).cf(other) == old(self).cf(other),
    {
        let rev = rev_of_seq_exec(seq_num);
        let tag = value_type_tag(vt);
        let key = (vstd::slice::slice_to_vec(user_key), rev, tag);
        let ghost kv = (user_key@, rev_of_seq(seq_num), tag_of(vt));
        let ghost before = self.cf(cf);
        match cf {
            CfName::Default => store_insert(&mut self.default_cf, key, value),
            CfName::Lock => store_insert(&mut self.lock_cf, key, value),
            CfName::Write => store_insert(&mut self.write_cf, key, value),
            CfName::Raft => (),
        }
        proof {
            assert(self.cf(cf) == before.insert(kv, value@));
            assert(self.cf(cf).dom() =~= before.dom().insert(kv));
            assert(wf_contents(self.cf(cf))) by {
                assert(self.cf(cf).dom().finite());
                assert forall|k: IKeyModel| #[trigger] self.cf(cf).dom().contains(k) implies k.1
                    <= MAX_SEQUENCE_NUMBER && (k.2 == crate::codec::TAG_DELETION || k.2
                    == crate::codec::TAG_VALUE) by {
                    if k != kv {
                        assert(before.dom().contains(k));
                    }
                }
            }
        }
    }

    /// Inserts a live value.
    pub fn put(&mut self, cf: CfName, user_key: &[u8], seq_num: u64, value: Vec<u8>)
        requires
            old(self).wf(),
            cf != CfName::Raft,
            seq_num <= MAX_SEQUENCE_NUMBER,
        ensures
            final(self).wf(),
            final(self).cf(cf) == old(self).cf(cf).insert(
                (user_key@, rev_of_seq(seq_num), crate::codec::TAG_VALUE),
                value@,
            ),
            forall|other: CfName| other != cf ==> final(self).cf(other) == old(self).cf(other),
    {
        self.put_entry(cf, user_key, seq_num, ValueType::Value, value)
    }

    /// Inserts a tombstone; a tombstone carries no bytes.
    pub fn delete(&mut self, cf: CfName, user_key: &[u8], seq_num: u64)
        requires
            old(self).wf(),
            cf != CfName::Raft,
            seq_num <= MAX_SEQUENCE_NUMBER,
        ensures
            final(self).wf(),
            final(self).cf(cf) == old(self).cf(cf).insert(
                (user_key@, rev_of_seq(seq_num), crate::codec::TAG_DELETION),
                Seq::empty(),
            ),
            forall|other: CfName| other != cf ==> final(self).cf(other) == old(self).cf(other),
    {
        let empty: Vec<u8> = Vec::new();
        self.put_entry(cf, user_key, seq_num, ValueType::Deletion, empty)
    }

    /// Physically removes every record whose user key falls in
    /// `[start, end)` from one column family.
    pub fn delete_range_cf(&mut self, cf: CfName, start: &[u8], end: &[u8])
        requires
            old(self).wf(),
            cf != CfName::Raft,
        ensures
            final(self).wf(),
            forall|k: IKeyModel| #[trigger]
                final(self).cf(cf).dom().contains(k) <==> (old(self).cf(cf).dom().contains(k)
                    && !key_in_range(k.0, start@, end@)),
            forall|k: IKeyModel| #[trigger]
                final(self).cf(cf).dom().contains(k) ==> final(self).cf(cf)[k]
                    == old(self).cf(cf)[k],
            forall|other: CfName| other != cf ==> final(self).cf(other) == old(self).cf(other),
    {
        match cf {
            CfName::Default => delete_range_store(&mut self.default_cf, start, end),
            CfName::Lock => delete_range_store(&mut self.lock_cf, start, end),
            CfName::Write => delete_range_store(&mut self.write_cf, start, end),
            CfName::Raft => (),
        }
    }

    /// Physically removes a user-key range from every cached column
    /// family, as evicting a region does.
    pub fn delete_range(&mut self, start: &[u8], end: &[u8])
        requires
            old(self).wf(),
        ensures
            final(self).wf(),
            forall|cf: CfName, k: IKeyModel|
                cf != CfName::Raft ==> (#[trigger] final(self).cf(cf).dom().contains(k)
                    <==> (old(self).cf(cf).dom().contains(k)
                    && !key_in_range(k.0, start@, end@))),
            forall|cf: CfName, k: IKeyModel|
                cf != CfName::Raft && #[trigger] final(self).cf(cf).dom().contains(k)
                    ==> final(self).cf(cf)[k] == old(self).cf(cf)[k],
    {
        self.delete_range_cf(CfName::Default, start, end);
        self.delete_range_cf(CfName::Lock, start, end);
        self.delete_range_cf(CfName::Write, start, end);
    }
}

/// Removes every record of `[start, end)` from one map by repeatedly
/// seeking the first record at or after `start` and removing it while it
/// still falls below `end`.
fn delete_range_store(m: &mut CfStore, start: &[u8], end: &[u8])
    requires
        wf_contents(store_contents(*old(m))),
    ensures
        wf_contents(store_contents(*final(m))),
        forall|k: IKeyModel| #[trigger]
            store_contents(*final(m)).dom().contains(k)
                <==> (store_contents(*old(m)).dom().contains(k)
                && !key_in_range(k.0, start@, end@)),
        forall|k: IKeyModel| #[trigger]
            store_contents(*final(m)).dom().contains(k) ==> store_contents(*final(m))[k]
                == store_contents(*old(m))[k],
{
    let lo: (Vec<u8>, u64, u8) = (vstd::slice::slice_to_vec(start), 0u64, 0u8);
    let ghost init = store_contents(*old(m));
    loop
        invariant
            wf_contents(store_contents(*m)),
            lo.0@ == start@ && lo.1 == 0u64 && lo.2 == 0u8,
            wf_contents(init),
            forall|k: IKeyModel| #[trigger]
                store_contents(*m).dom().contains(k) ==> init.dom().contains(k)
                    && store_contents(*m)[k] == init[k],
            forall|k: IKeyModel| #[trigger]
                init.dom().contains(k) ==> store_contents(*m).dom().contains(k) || key_in_range(
                    k.0,
                    start@,
                    end@,
                ),
        ensures
            forall|k: IKeyModel| #[trigger]
                store_contents(*m).dom().contains(k) ==> init.dom().contains(k)
                    && store_contents(*m)[k] == init[k],
            forall|k: IKeyModel| #[trigger]
                init.dom().contains(k) ==> store_contents(*m).dom().contains(k) || key_in_range(
                    k.0,
                    start@,
                    end@,
                ),
            forall|k: IKeyModel| #[trigger]
                store_contents(*m).dom().contains(k) ==> !key_in_range(k.0, start@, end@),
            wf_contents(store_contents(*m)),
        decreases store_contents(*m).dom().len(),
    {
        let ghost cur = store_contents(*m);
        match store_seek_ge(m, &lo) {
            Some(e) => {
                let ghost ev = ikey_view(e.0);
                if bytes_lt(e.0.0.as_slice(), end) {
                    proof {
                        assert(lex_le(start@, ev.0)) by {
                            crate::byteorder::lemma_lex_lt_irreflexive(start@);
                        }
                        assert(key_in_range(ev.0, start@, end@));
                    }
                    store_remove(m, &e.0);
                    proof {
                        assert(store_contents(*m).dom() =~= cur.dom().remove(ev));
                        assert(cur.dom().remove(ev).len() < cur.dom().len()) by {
                            assert(cur.dom().contains(ev));
                        }
                        assert(wf_contents(store_contents(*m))) by {
                            assert forall|k: IKeyModel| #[trigger]
                                store_contents(*m).dom().contains(k) implies k.1
                                <= MAX_SEQUENCE_NUMBER && (k.2 == crate::codec::TAG_DELETION || k.2
                                == crate::codec::TAG_VALUE) by {
                                assert(cur.dom().contains(k));
                            }
                        }
                    }
                } else {
                    proof {
                        lemma_no_range_keys_left(store_contents(*m), ikey_view(lo), ev, start@, end@, true);
                    }
                    break ;
                }
            },
            None => {
                proof {
                    lemma_no_range_keys_left(store_contents(*m), ikey_view(lo), ikey_view(lo), start@, end@, false);
                }
                break ;
            },
        }
    }
}

/// When the first record at or after `(start, 0, 0)` already lies at or
/// beyond `end` (or there is none), no stored record's user key falls in
/// `[start, end)`.
proof fn lemma_no_range_keys_left(
    m: CfModel,
    lo: IKeyModel,
    e: IKeyModel,
    start: Seq<u8>,
    end: Seq<u8>,
    found: bool,
)
    requires
        lo.0 == start && lo.1 == 0u64 && lo.2 == 0u8,
        found ==> !lex_lt(e.0, end) && forall|o: IKeyModel|
            m.dom().contains(o) && ikey_le(lo, o) ==> ikey_le(e, o),
        !found ==> forall|o: IKeyModel| m.dom().contains(o) ==> ikey_lt(o, lo),
    ensures
        forall|k: IKeyModel| #[trigger] m.dom().contains(k) ==> !key_in_range(k.0, start, end),
{
    assert forall|k: IKeyModel| #[trigger] m.dom().contains(k) implies !key_in_range(
        k.0,
        start,
        end,
    ) by {
        if key_in_range(k.0, start, end) {
            assert(ikey_le(lo, k)) by {
                if start == k.0 {
                } else {
                    assert(lex_lt(start, k.0));
                }
            }
            if found {
                assert(ikey_le(e, k));
                assert(lex_le(e.0, k.0));
                crate::byteorder::lemma_lex_lt_total(e.0, end);
                assert(lex_le(end, e.0));
                // start <= k.0 < end <= e.0 <= k.0: an order cycle
                if lex_lt(e.0, k.0) {
                    if lex_lt(end, e.0) {
                        crate::byteorder::lemma_lex_lt_transitive(k.0, end, e.0);
                        crate::byteorder::lemma_lex_lt_transitive(k.0, e.0, k.0);
                        crate::byteorder::lemma_lex_lt_irreflexive(k.0);
                    } else {
                        crate::byteorder::lemma_lex_lt_transitive(k.0, e.0, k.0);
                        crate::byteorder::lemma_lex_lt_irreflexive(k.0);
                    }
                } else {
                    if lex_lt(end, e.0) {
                        crate::byteorder::lemma_lex_lt_transitive(k.0, end, e.0);
                        crate::byteorder::lemma_lex_lt_irreflexive(k.0);
                    } else {
                        crate::byteorder::lemma_lex_lt_irreflexive(k.0);
                    }
                }
            } else {
                assert(ikey_lt(k, lo));
                lemma_ikey_lt_irreflexive(k);
                lemma_ikey_lt_transitive(k, lo, k);
            }
        }
    }
}

} // verus!
