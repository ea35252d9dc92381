//! The ordered concurrent map that backs one column family.
//!
//! Each column family of the cache is one `crossbeam_skiplist::SkipMap`,
//! a lock-free ordered map with epoch-based memory reclamation. Entries
//! are keyed by a decoded internal key: the user key, the inverted
//! sequence number (`MAX_SEQUENCE_NUMBER - sequence`, so that newer
//! versions sort first within a user key) and the value-type tag. The
//! byte-string form of the same internal key, and the proof that its
//! lexicographic order agrees with this tuple order, live in `codec`.
//!
//! What the map holds is named by the uninterpreted function
//! [`store_contents`]; the trusted wrappers below state, over that name,
//! what the crate's source shows of each operation.

use vstd::prelude::*;

use crate::byteorder::{lex_le, lex_lt};
use crossbeam_skiplist::SkipMap;
use std::ops::Bound;

verus! {

#[verifier::external_type_specification]
#[verifier::external_body]
#[verifier::reject_recursive_types(K)]
#[verifier::reject_recursive_types(V)]
pub struct ExSkipMap<K, V>(SkipMap<K, V>);

/// A decoded internal key: `(user_key, inverted_sequence, value_type_tag)`.
pub type IKey = (Vec<u8>, u64, u8);

/// Its mathematical counterpart.
pub type IKeyModel = (Seq<u8>, u64, u8);

/// One column family's backing map.
pub type CfStore = SkipMap<IKey, Vec<u8>>;

pub open spec fn ikey_view(k: IKey) -> IKeyModel {
    (k.0@, k.1, k.2)
}

/// The order that `std` defines on the key tuple: lexicographic by
/// component, with `Vec<u8>` itself compared lexicographically.
pub open spec fn ikey_lt(a: IKeyModel, b: IKeyModel) -> bool {
    lex_lt(a.0, b.0) || (a.0 == b.0 && (a.1 < b.1 || (a.1 == b.1 && a.2 < b.2)))
}

pub open spec fn ikey_le(a: IKeyModel, b: IKeyModel) -> bool {
    ikey_lt(a, b) || a == b
}

pub proof fn lemma_ikey_lt_irreflexive(a: IKeyModel)
    ensures
        !ikey_lt(a, a),
{
    crate::byteorder::lemma_lex_lt_irreflexive(a.0);
}

pub proof fn lemma_ikey_lt_transitive(a: IKeyModel, b: IKeyModel, c: IKeyModel)
    requires
        ikey_lt(a, b),
        ikey_lt(b, c),
    ensures
        ikey_lt(a, c),
{
    if lex_lt(a.0, b.0) && lex_lt(b.0, c.0) {
        crate::byteorder::lemma_lex_lt_transitive(a.0, b.0, c.0);
    }
}

pub proof fn lemma_ikey_lt_total(a: IKeyModel, b: IKeyModel)
    ensures
        ikey_lt(a, b) || ikey_lt(b, a) || a == b,
{
    crate::byteorder::lemma_lex_lt_total(a.0, b.0);
    crate::byteorder::lemma_lex_lt_irreflexive(a.0);
}

pub proof fn lemma_ikey_le_lt_trans(a: IKeyModel, b: IKeyModel, c: IKeyModel)
    requires
        ikey_le(a, b),
        ikey_lt(b, c),
    ensures
        ikey_lt(a, c),
{
    if a != b {
        lemma_ikey_lt_transitive(a, b, c);
    }
}

/// A smaller internal key has a user key at or before the other's.
pub proof fn lemma_ikey_le_user(a: IKeyModel, b: IKeyModel)
    requires
        ikey_le(a, b),
    ensures
        lex_le(a.0, b.0),
{
}

/// What the map holds, as a mathematical map from decoded internal keys
/// to values. Named so that the wrappers below can speak of it; nothing
/// is assumed of it beyond what they state.
pub uninterp spec fn store_contents(m: CfStore) -> Map<(Seq<u8>, u64, u8), Seq<u8>>;

/// The contents of a map that holds nothing.
pub open spec fn store_empty() -> Map<(Seq<u8>, u64, u8), Seq<u8>> {
    Map::empty()
}

/// Relies on crossbeam_skiplist::SkipMap::new: a fresh map is empty.
#[verifier::external_body]
pub fn store_new() -> (r: CfStore)
    ensures
        store_contents(r) == store_empty(),
{
    SkipMap::new()
}

/// Relies on crossbeam_skiplist::SkipMap::insert: inserts the pair,
/// removing any existing entry with an equal key first.
#[verifier::external_body]
pub fn store_insert(m: &mut CfStore, key: IKey, value: Vec<u8>)
    ensures
        store_contents(*final(m)) == store_contents(*old(m)).insert(ikey_view(key), value@),
{
    m.insert(key, value);
}

/// Relies on crossbeam_skiplist::SkipMap::remove: removes the entry with
/// an equal key, if one is present.
#[verifier::external_body]
pub fn store_remove(m: &mut CfStore, key: &IKey) -> (r: bool)
    ensures
        store_contents(*final(m)) == store_contents(*old(m)).remove(ikey_view(*key)),
        r == store_contents(*old(m)).dom().contains(ikey_view(*key)),
{
    m.remove(key).is_some()
}

/// Relies on crossbeam_skiplist::SkipMap::lower_bound with an inclusive
/// bound: the lowest entry whose key is at or above the given key, in the
/// order that std defines on the key tuple; `None` when every entry is
/// below it.
#[verifier::external_body]
pub fn store_seek_ge(m: &CfStore, key: &IKey) -> (r: Option<(IKey, Vec<u8>)>)
    ensures
        match r {
            Some(e) => {
                &&& store_contents(*m).dom().contains(ikey_view(e.0))
                &&& store_contents(*m)[ikey_view(e.0)] == e.1@
                &&& ikey_le(ikey_view(*key), ikey_view(e.0))
                &&& forall|o: IKeyModel|
                    store_contents(*m).dom().contains(o) && ikey_le(ikey_view(*key), o)
                        ==> ikey_le(ikey_view(e.0), o)
            },
            None => forall|o: IKeyModel|
                store_contents(*m).dom().contains(o) ==> ikey_lt(o, ikey_view(*key)),
        },
{
    match m.lower_bound(Bound::Included(key)) {
        Some(e) => Some((e.key().clone(), e.value().clone())),
        None => None,
    }
}

/// Relies on crossbeam_skiplist::SkipMap::lower_bound with an exclusive
/// bound: the lowest entry whose key is strictly above the given key.
#[verifier::external_body]
pub fn store_seek_gt(m: &CfStore, key: &IKey) -> (r: Option<(IKey, Vec<u8>)>)
    ensures
        match r {
            Some(e) => {
                &&& store_contents(*m).dom().contains(ikey_view(e.0))
                &&& store_contents(*m)[ikey_view(e.0)] == e.1@
                &&& ikey_lt(ikey_view(*key), ikey_view(e.0))
                &&& forall|o: IKeyModel|
                    store_contents(*m).dom().contains(o) && ikey_lt(ikey_view(*key), o)
                        ==> ikey_le(ikey_view(e.0), o)
            },
            None => forall|o: IKeyModel|
                store_contents(*m).dom().contains(o) ==> ikey_le(o, ikey_view(*key)),
        },
{
    match m.lower_bound(Bound::Excluded(key)) {
        Some(e) => Some((e.key().clone(), e.value().clone())),
        None => None,
    }
}

/// Relies on crossbeam_skiplist::SkipMap::upper_bound with an inclusive
/// bound: the highest entry whose key is at or below the given key.
#[verifier::external_body]
pub fn store_seek_le(m: &CfStore, key: &IKey) -> (r: Option<(IKey, Vec<u8>)>)
    ensures
        match r {
            Some(e) => {
                &&& store_contents(*m).dom().contains(ikey_view(e.0))
                &&& store_contents(*m)[ikey_view(e.0)] == e.1@
                &&& ikey_le(ikey_view(e.0), ikey_view(*key))
                &&& forall|o: IKeyModel|
                    store_contents(*m).dom().contains(o) && ikey_le(o, ikey_view(*key))
                        ==> ikey_le(o, ikey_view(e.0))
            },
            None => forall|o: IKeyModel|
                store_contents(*m).dom().contains(o) ==> ikey_lt(ikey_view(*key), o),
        },
{
    match m.upper_bound(Bound::Included(key)) {
        Some(e) => Some((e.key().clone(), e.value().clone())),
        None => None,
    }
}

/// Relies on crossbeam_skiplist::SkipMap::upper_bound with an exclusive
/// bound: the highest entry whose key is strictly below the given key.
#[verifier::external_body]
pub fn store_seek_lt(m: &CfStore, key: &IKey) -> (r: Option<(IKey, Vec<u8>)>)
    ensures
        match r {
            Some(e) => {
                &&& store_contents(*m).dom().contains(ikey_view(e.0))
                &&& store_contents(*m)[ikey_view(e.0)] == e.1@
                &&& ikey_lt(ikey_view(e.0), ikey_view(*key))
                &&& forall|o: IKeyModel|
                    store_contents(*m).dom().contains(o) && ikey_lt(o, ikey_view(*key))
                        ==> ikey_le(o, ikey_view(e.0))
            },
            None => forall|o: IKeyModel|
                store_contents(*m).dom().contains(o) ==> ikey_le(ikey_view(*key), o),
        },
{
    match m.upper_bound(Bound::Excluded(key)) {
        Some(e) => Some((e.key().clone(), e.value().clone())),
        None => None,
    }
}

} // verus!
