//! The encoded-key codec.
//!
//! An internal key is the user key, followed by the 8-byte big-endian
//! encoding of the inverted sequence number `MAX_SEQUENCE_NUMBER - sequence`,
//! followed by a one-byte value-type tag. Inverting the sequence makes the
//! lexicographic order visit newer versions of a user key before older
//! ones, so one physical scan direction serves each logical direction.

use vstd::prelude::*;

use crate::MAX_SEQUENCE_NUMBER;
use crate::byteorder::{lex_lt, lemma_lex_lt_common_prefix};

verus! {

/// The kind of an internal record: a live value or a tombstone.
#[derive(Clone, Copy, PartialEq, Eq, Structural, Debug)]
pub enum ValueType {
    Deletion,
    Value,
}

/// Tag byte of a tombstone. It is the smaller tag, so at equal user key
/// and sequence a tombstone sorts first and wins.
pub const TAG_DELETION: u8 = 0;

/// Tag byte of a live value.
pub const TAG_VALUE: u8 = 1;

pub open spec fn tag_of(vt: ValueType) -> u8 {
    match vt {
        ValueType::Deletion => TAG_DELETION,
        ValueType::Value => TAG_VALUE,
    }
}

pub fn value_type_tag(vt: ValueType) -> (r: u8)
    ensures
        r == tag_of(vt),
{
    match vt {
        ValueType::Deletion => TAG_DELETION,
        ValueType::Value => TAG_VALUE,
    }
}

/// The inverted sequence number that an internal key carries for
/// `seq_num`; sequence numbers above `MAX_SEQUENCE_NUMBER` saturate at
/// the newest slot.
pub open spec fn rev_of_seq(seq_num: u64) -> u64 {
    if seq_num >= MAX_SEQUENCE_NUMBER {
        0u64
    } else {
        (MAX_SEQUENCE_NUMBER - seq_num) as u64
    }
}

/// The sequence number a stored inverted sequence stands for.
pub open spec fn seq_of_rev(rev: u64) -> u64
    recommends
        rev <= MAX_SEQUENCE_NUMBER,
{
    (MAX_SEQUENCE_NUMBER - rev) as u64
}

/// Executable form of [`rev_of_seq`].
pub fn rev_of_seq_exec(seq_num: u64) -> (r: u64)
    ensures
        r == rev_of_seq(seq_num),
{
    if seq_num >= MAX_SEQUENCE_NUMBER {
        0
    } else {
        MAX_SEQUENCE_NUMBER - seq_num
    }
}

/// The 8 big-endian bytes of a 64-bit number.
pub open spec fn be_bytes_of(x: u64) -> Seq<u8> {
    seq![
        ((x >> 56) & 0xff) as u8,
        ((x >> 48) & 0xff) as u8,
        ((x >> 40) & 0xff) as u8,
        ((x >> 32) & 0xff) as u8,
        ((x >> 24) & 0xff) as u8,
        ((x >> 16) & 0xff) as u8,
        ((x >> 8) & 0xff) as u8,
        (x & 0xff) as u8,
    ]
}

/// The number that 8 big-endian bytes stand for.
pub open spec fn u64_of_be(s: Seq<u8>) -> u64
    recommends
        s.len() == 8,
{
    (((s[0] as u64) << 56) | ((s[1] as u64) << 48) | ((s[2] as u64) << 40) | ((s[3] as u64) << 32)
        | ((s[4] as u64) << 24) | ((s[5] as u64) << 16) | ((s[6] as u64) << 8) | (s[7] as u64))
        as u64
}

pub proof fn lemma_be_roundtrip(x: u64)
    ensures
        u64_of_be(be_bytes_of(x)) == x,
{
    let s = be_bytes_of(x);
    assert(s[0] == ((x >> 56) & 0xff) as u8);
    assert(s[1] == ((x >> 48) & 0xff) as u8);
    assert(s[2] == ((x >> 40) & 0xff) as u8);
    assert(s[3] == ((x >> 32) & 0xff) as u8);
    assert(s[4] == ((x >> 24) & 0xff) as u8);
    assert(s[5] == ((x >> 16) & 0xff) as u8);
    assert(s[6] == ((x >> 8) & 0xff) as u8);
    assert(s[7] == (x & 0xff) as u8);
    assert(((((x >> 56) & 0xff) as u8 as u64) << 56) | ((((x >> 48) & 0xff) as u8 as u64) << 48)
        | ((((x >> 40) & 0xff) as u8 as u64) << 40) | ((((x >> 32) & 0xff) as u8 as u64) << 32) | (
    (((x >> 24) & 0xff) as u8 as u64) << 24) | ((((x >> 16) & 0xff) as u8 as u64) << 16) | ((((x
        >> 8) & 0xff) as u8 as u64) << 8) | ((x & 0xff) as u8 as u64) == x) by (bit_vector);
}

/// Big-endian byte order agrees with numeric order.
pub proof fn lemma_be_order(x: u64, y: u64)
    requires
        x < y,
    ensures
        lex_lt(be_bytes_of(x), be_bytes_of(y)),
{
    let a = be_bytes_of(x);
    let b = be_bytes_of(y);
    if a[0] != b[0] {
        assert(x < y ==> (((x >> 56) & 0xff) as u8) <= (((y >> 56) & 0xff) as u8))
            by (bit_vector);
        assert(lex_lt(a, b));
    } else if a[1] != b[1] {
        assert((((x >> 56) & 0xff) as u8) == (((y >> 56) & 0xff) as u8) && x < y ==> (((x >> 48)
            & 0xff) as u8) <= (((y >> 48) & 0xff) as u8)) by (bit_vector);
        lemma_lex_lt_common_prefix(a, b, 1);
        assert(a.skip(1)[0] == a[1] && b.skip(1)[0] == b[1]);
    } else if a[2] != b[2] {
        assert((((x >> 56) & 0xff) as u8) == (((y >> 56) & 0xff) as u8) && (((x >> 48) & 0xff)
            as u8) == (((y >> 48) & 0xff) as u8) && x < y ==> (((x >> 40) & 0xff) as u8) <= (((y
            >> 40) & 0xff) as u8)) by (bit_vector);
        assert(forall|j: int| 0 <= j < 2 ==> a[j] == b[j]);
        lemma_lex_lt_common_prefix(a, b, 2);
        assert(a.skip(2)[0] == a[2] && b.skip(2)[0] == b[2]);
    } else if a[3] != b[3] {
        assert((((x >> 56) & 0xff) as u8) == (((y >> 56) & 0xff) as u8) && (((x >> 48) & 0xff)
            as u8) == (((y >> 48) & 0xff) as u8) && (((x >> 40) & 0xff) as u8) == (((y >> 40)
            & 0xff) as u8) && x < y ==> (((x >> 32) & 0xff) as u8) <= (((y >> 32) & 0xff) as u8))
            by (bit_vector);
        assert(forall|j: int| 0 <= j < 3 ==> a[j] == b[j]);
        lemma_lex_lt_common_prefix(a, b, 3);
        assert(a.skip(3)[0] == a[3] && b.skip(3)[0] == b[3]);
    } else if a[4] != b[4] {
        assert((((x >> 56) & 0xff) as u8) == (((y >> 56) & 0xff) as u8) && (((x >> 48) & 0xff)
            as u8) == (((y >> 48) & 0xff) as u8) && (((x >> 40) & 0xff) as u8) == (((y >> 40)
            & 0xff) as u8) && (((x >> 32) & 0xff) as u8) == (((y >> 32) & 0xff) as u8) && x < y
            ==> (((x >> 24) & 0xff) as u8) <= (((y >> 24) & 0xff) as u8)) by (bit_vector);
        assert(forall|j: int| 0 <= j < 4 ==> a[j] == b[j]);
        lemma_lex_lt_common_prefix(a, b, 4);
        assert(a.skip(4)[0] == a[4] && b.skip(4)[0] == b[4]);
    } else if a[5] != b[5] {
        assert((((x >> 56) & 0xff) as u8) == (((y >> 56) & 0xff) as u8) && (((x >> 48) & 0xff)
            as u8) == (((y >> 48) & 0xff) as u8) && (((x >> 40) & 0xff) as u8) == (((y >> 40)
            & 0xff) as u8) && (((x >> 32) & 0xff) as u8) == (((y >> 32) & 0xff) as u8) && (((x
            >> 24) & 0xff) as u8) == (((y >> 24) & 0xff) as u8) && x < y ==> (((x >> 16) & 0xff)
            as u8) <= (((y >> 16) & 0xff) as u8)) by (bit_vector);
        assert(forall|j: int| 0 <= j < 5 ==> a[j] == b[j]);
        lemma_lex_lt_common_prefix(a, b, 5);
        assert(a.skip(5)[0] == a[5] && b.skip(5)[0] == b[5]);
    } else if a[6] != b[6] {
        assert((((x >> 56) & 0xff) as u8) == (((y >> 56) & 0xff) as u8) && (((x >> 48) & 0xff)
            as u8) == (((y >> 48) & 0xff) as u8) && (((x >> 40) & 0xff) as u8) == (((y >> 40)
            & 0xff) as u8) && (((x >> 32) & 0xff) as u8) == (((y >> 32) & 0xff) as u8) && (((x
            >> 24) & 0xff) as u8) == (((y >> 24) & 0xff) as u8) && (((x >> 16) & 0xff) as u8)
            == (((y >> 16) & 0xff) as u8) && x < y ==> (((x >> 8) & 0xff) as u8) <= (((y >> 8)
            & 0xff) as u8)) by (bit_vector);
        assert(forall|j: int| 0 <= j < 6 ==> a[j] == b[j]);
        lemma_lex_lt_common_prefix(a, b, 6);
        assert(a.skip(6)[0] == a[6] && b.skip(6)[0] == b[6]);
    } else if a[7] != b[7] {
        assert((((x >> 56) & 0xff) as u8) == (((y >> 56) & 0xff) as u8) && (((x >> 48) & 0xff)
            as u8) == (((y >> 48) & 0xff) as u8) && (((x >> 40) & 0xff) as u8) == (((y >> 40)
            & 0xff) as u8) && (((x >> 32) & 0xff) as u8) == (((y >> 32) & 0xff) as u8) && (((x
            >> 24) & 0xff) as u8) == (((y >> 24) & 0xff) as u8) && (((x >> 16) & 0xff) as u8)
            == (((y >> 16) & 0xff) as u8) && (((x >> 8) & 0xff) as u8) == (((y >> 8) & 0xff)
            as u8) && x < y ==> ((x & 0xff) as u8) <= ((y & 0xff) as u8)) by (bit_vector);
        assert(forall|j: int| 0 <= j < 7 ==> a[j] == b[j]);
        lemma_lex_lt_common_prefix(a, b, 7);
        assert(a.skip(7)[0] == a[7] && b.skip(7)[0] == b[7]);
    } else {
        assert((((x >> 56) & 0xff) as u8) == (((y >> 56) & 0xff) as u8) && (((x >> 48) & 0xff)
            as u8) == (((y >> 48) & 0xff) as u8) && (((x >> 40) & 0xff) as u8) == (((y >> 40)
            & 0xff) as u8) && (((x >> 32) & 0xff) as u8) == (((y >> 32) & 0xff) as u8) && (((x
            >> 24) & 0xff) as u8) == (((y >> 24) & 0xff) as u8) && (((x >> 16) & 0xff) as u8)
            == (((y >> 16) & 0xff) as u8) && (((x >> 8) & 0xff) as u8) == (((y >> 8) & 0xff)
            as u8) && ((x & 0xff) as u8) == ((y & 0xff) as u8) ==> x == y) by (bit_vector);
    }
}

/// The byte string of one internal key.
pub open spec fn encoded_key(user_key: Seq<u8>, rev: u64, tag: u8) -> Seq<u8> {
    user_key + be_bytes_of(rev) + seq![tag]
}

pub open spec fn decoded_user_key(k: Seq<u8>) -> Seq<u8>
    recommends
        k.len() >= 9,
{
    k.take(k.len() - 9)
}

pub open spec fn decoded_rev(k: Seq<u8>) -> u64
    recommends
        k.len() >= 9,
{
    u64_of_be(k.subrange(k.len() - 9, k.len() - 1))
}

pub open spec fn decoded_tag(k: Seq<u8>) -> u8
    recommends
        k.len() >= 9,
{
    k[k.len() - 1]
}

/// The three parts of an encoded key read back as what was written.
pub proof fn lemma_encoded_key_parts(user_key: Seq<u8>, rev: u64, tag: u8)
    ensures
        encoded_key(user_key, rev, tag).len() == user_key.len() + 9,
        decoded_user_key(encoded_key(user_key, rev, tag)) == user_key,
        decoded_rev(encoded_key(user_key, rev, tag)) == rev,
        decoded_tag(encoded_key(user_key, rev, tag)) == tag,
{
    let e = encoded_key(user_key, rev, tag);
    assert(e.len() == user_key.len() + 9);
    assert(e.take(e.len() - 9) =~= user_key);
    assert(e.subrange(e.len() - 9, e.len() - 1) =~= be_bytes_of(rev));
    lemma_be_roundtrip(rev);
}

/// Appends the inverted sequence number and the value-type tag to the
/// user key.
pub fn encode_key(user_key: &[u8], seq_num: u64, vt: ValueType) -> (r: Vec<u8>)
    requires
        seq_num <= MAX_SEQUENCE_NUMBER,
    ensures
        r@ == encoded_key(user_key@, rev_of_seq(seq_num), tag_of(vt)),
{
    encode_key_raw(user_key, rev_of_seq_exec(seq_num), value_type_tag(vt))
}

/// A seek key for forward iteration: the first entry at or after it is
/// the newest version of `user_key` with sequence at most `seq_num`.
pub fn encode_seek_key(user_key: &[u8], seq_num: u64) -> (r: Vec<u8>)
    ensures
        r@ == encoded_key(user_key@, rev_of_seq(seq_num), TAG_DELETION),
{
    encode_key_raw(user_key, rev_of_seq_exec(seq_num), TAG_DELETION)
}

/// A seek key for backward iteration: the last entry at or before it is
/// the oldest version of `user_key` with sequence at least `seq_num`.
pub fn encode_seek_for_prev_key(user_key: &[u8], seq_num: u64) -> (r: Vec<u8>)
    ensures
        r@ == encoded_key(user_key@, rev_of_seq(seq_num), 255u8),
{
    encode_key_raw(user_key, rev_of_seq_exec(seq_num), 255)
}

fn encode_key_raw(user_key: &[u8], rev: u64, tag: u8) -> (r: Vec<u8>)
    ensures
        r@ == encoded_key(user_key@, rev, tag),
{
    let mut v = vstd::slice::slice_to_vec(user_key);
    v.push(((rev >> 56) & 0xff) as u8);
    v.push(((rev >> 48) & 0xff) as u8);
    v.push(((rev >> 40) & 0xff) as u8);
    v.push(((rev >> 32) & 0xff) as u8);
    v.push(((rev >> 24) & 0xff) as u8);
    v.push(((rev >> 16) & 0xff) as u8);
    v.push(((rev >> 8) & 0xff) as u8);
    v.push((rev & 0xff) as u8);
    v.push(tag);
    proof {
        assert(v@ =~= encoded_key(user_key@, rev, tag));
    }
    v
}

/// Splits the trailing nine bytes off an internal key. The caller
/// guarantees a well-formed input: at least nine bytes, a known tag and a
/// sequence that fits `MAX_SEQUENCE_NUMBER`.
pub fn decode_key(key: &[u8]) -> (r: (Vec<u8>, u64, ValueType))
    requires
        key@.len() >= 9,
        decoded_tag(key@) == TAG_DELETION || decoded_tag(key@) == TAG_VALUE,
        key@[key@.len() - 9] == 0,
    ensures
        r.0@ == decoded_user_key(key@),
        r.1 == seq_of_rev(decoded_rev(key@)),
        tag_of(r.2) == decoded_tag(key@),
        decoded_rev(key@) <= MAX_SEQUENCE_NUMBER,
{
    let n = key.len();
    let (user, tail) = key.split_at(n - 9);
    let rev: u64 = ((tail[0] as u64) << 56) | ((tail[1] as u64) << 48) | ((tail[2] as u64) << 40)
        | ((tail[3] as u64) << 32) | ((tail[4] as u64) << 24) | ((tail[5] as u64) << 16) | ((
    tail[6] as u64) << 8) | (tail[7] as u64);
    let tag = tail[8];
    proof {
        assert(tail@.subrange(0, 8) =~= key@.subrange(key@.len() - 9, key@.len() - 1));
        assert(key@.subrange(key@.len() - 9, key@.len() - 1)[0] == key@[key@.len() - 9]);
        assert(rev == decoded_rev(key@));
        let b0 = key@[key@.len() - 9] as u64;
        assert(b0 == 0);
        lemma_rev_top_byte_bound(
            rev,
            (tail@[1] as u64),
            (tail@[2] as u64),
            (tail@[3] as u64),
            (tail@[4] as u64),
            (tail@[5] as u64),
            (tail@[6] as u64),
            (tail@[7] as u64),
        );
        assert(tail@[8] == key@[key@.len() - 1]);
        assert(user@ =~= decoded_user_key(key@));
    }
    let vt = if tag == TAG_VALUE {
        ValueType::Value
    } else {
        ValueType::Deletion
    };
    let seq = MAX_SEQUENCE_NUMBER - rev;
    (vstd::slice::slice_to_vec(user), seq, vt)
}

proof fn lemma_rev_top_byte_bound(
    rev: u64,
    b1: u64,
    b2: u64,
    b3: u64,
    b4: u64,
    b5: u64,
    b6: u64,
    b7: u64,
)
    requires
        b1 < 256,
        b2 < 256,
        b3 < 256,
        b4 < 256,
        b5 < 256,
        b6 < 256,
        b7 < 256,
        rev == (0u64 << 56) | (b1 << 48) | (b2 << 40) | (b3 << 32) | (b4 << 24) | (b5 << 16) | (b6
            << 8) | b7,
    ensures
        rev <= MAX_SEQUENCE_NUMBER,
{
    assert(((0u64 << 56) | (b1 << 48) | (b2 << 40) | (b3 << 32) | (b4 << 24) | (b5 << 16) | (b6
        << 8) | b7) <= 0x00ff_ffff_ffff_ffffu64) by (bit_vector)
        requires
            b1 < 256,
            b2 < 256,
            b3 < 256,
            b4 < 256,
            b5 < 256,
            b6 < 256,
            b7 < 256,
    ;
}

/// Appending anything to two equal-length ordered strings keeps their
/// order.
proof fn lemma_lex_lt_append(x: Seq<u8>, y: Seq<u8>, s1: Seq<u8>, s2: Seq<u8>)
    requires
        lex_lt(x, y),
        x.len() == y.len(),
    ensures
        lex_lt(x + s1, y + s2),
    decreases x.len(),
{
    assert(x.len() > 0);
    assert((x + s1).len() > 0 && (y + s2).len() > 0);
    assert((x + s1)[0] == x[0] && (y + s2)[0] == y[0]);
    if x[0] == y[0] {
        lemma_lex_lt_append(x.skip(1), y.skip(1), s1, s2);
        assert((x + s1).skip(1) =~= x.skip(1) + s1);
        assert((y + s2).skip(1) =~= y.skip(1) + s2);
    }
}

/// The codec's ordering guarantee: for one user key, lexicographic order
/// on encoded keys visits newer sequences before older ones (and
/// tombstones before values at equal sequence); across user keys neither
/// of which extends the other, it matches user-key order. A user key
/// that is a proper prefix of another interleaves with that key's
/// versions, which is why the requirement excludes such pairs.
pub proof fn lemma_encoded_key_order(
    a_uk: Seq<u8>,
    a_rev: u64,
    a_tag: u8,
    b_uk: Seq<u8>,
    b_rev: u64,
    b_tag: u8,
)
    requires
        a_uk == b_uk || exists|i: int|
            0 <= i < a_uk.len() && i < b_uk.len() && a_uk[i] != #[trigger] b_uk[i],
    ensures
        lex_lt(encoded_key(a_uk, a_rev, a_tag), encoded_key(b_uk, b_rev, b_tag)) == (lex_lt(
            a_uk,
            b_uk,
        ) || (a_uk == b_uk && (a_rev < b_rev || (a_rev == b_rev && a_tag < b_tag)))),
    decreases a_uk.len(),
{
    let ea = encoded_key(a_uk, a_rev, a_tag);
    let eb = encoded_key(b_uk, b_rev, b_tag);
    if a_uk == b_uk {
        crate::byteorder::lemma_lex_lt_irreflexive(a_uk);
        assert forall|j: int| 0 <= j < a_uk.len() implies ea[j] == eb[j] by {
            assert(ea[j] == a_uk[j] && eb[j] == b_uk[j]);
        }
        lemma_lex_lt_common_prefix(ea, eb, a_uk.len() as int);
        assert(ea.skip(a_uk.len() as int) =~= be_bytes_of(a_rev) + seq![a_tag]);
        assert(eb.skip(b_uk.len() as int) =~= be_bytes_of(b_rev) + seq![b_tag]);
        if a_rev < b_rev {
            lemma_be_order(a_rev, b_rev);
            lemma_lex_lt_append(be_bytes_of(a_rev), be_bytes_of(b_rev), seq![a_tag], seq![b_tag]);
        } else if b_rev < a_rev {
            lemma_be_order(b_rev, a_rev);
            lemma_lex_lt_append(be_bytes_of(b_rev), be_bytes_of(a_rev), seq![b_tag], seq![a_tag]);
            crate::byteorder::lemma_lex_lt_asymmetric(
                be_bytes_of(b_rev) + seq![b_tag],
                be_bytes_of(a_rev) + seq![a_tag],
            );
        } else {
            assert(be_bytes_of(a_rev) == be_bytes_of(b_rev));
            assert forall|j: int| 0 <= j < 8 implies (be_bytes_of(a_rev) + seq![a_tag])[j] == (
            be_bytes_of(b_rev) + seq![b_tag])[j] by {}
            lemma_lex_lt_common_prefix(
                be_bytes_of(a_rev) + seq![a_tag],
                be_bytes_of(b_rev) + seq![b_tag],
                8,
            );
            assert((be_bytes_of(a_rev) + seq![a_tag]).skip(8) =~= seq![a_tag]);
            assert((be_bytes_of(b_rev) + seq![b_tag]).skip(8) =~= seq![b_tag]);
            assert(lex_lt(seq![a_tag], seq![b_tag]) == (a_tag < b_tag)) by {
                if a_tag < b_tag {
                    assert(lex_lt(seq![a_tag], seq![b_tag]));
                } else if a_tag > b_tag {
                    assert(!lex_lt(seq![a_tag], seq![b_tag]));
                } else {
                    crate::byteorder::lemma_lex_lt_irreflexive(seq![a_tag]);
                }
            }
        }
    } else {
        let i = choose|i: int| 0 <= i < a_uk.len() && i < b_uk.len() && a_uk[i] != #[trigger] b_uk[i];
        if a_uk[0] != b_uk[0] {
            assert(ea[0] == a_uk[0] && eb[0] == b_uk[0]);
            assert(ea.len() > 0 && eb.len() > 0);
            assert(lex_lt(ea, eb) == (a_uk[0] < b_uk[0]));
            assert(lex_lt(a_uk, b_uk) == (a_uk[0] < b_uk[0]));
        } else {
            assert(a_uk.skip(1) != b_uk.skip(1) || a_uk.skip(1) == b_uk.skip(1));
            assert(exists|i2: int|
                0 <= i2 < a_uk.skip(1).len() && i2 < b_uk.skip(1).len() && a_uk.skip(1)[i2]
                    != #[trigger] b_uk.skip(1)[i2]) by {
                assert(i >= 1);
                assert(a_uk.skip(1)[i - 1] == a_uk[i] && b_uk.skip(1)[i - 1] == b_uk[i]);
            }
            if a_uk.skip(1) == b_uk.skip(1) {
                let i2 = choose|i2: int|
                    0 <= i2 < a_uk.skip(1).len() && i2 < b_uk.skip(1).len() && a_uk.skip(1)[i2]
                        != #[trigger] b_uk.skip(1)[i2];
                assert(false);
            }
            lemma_encoded_key_order(a_uk.skip(1), a_rev, a_tag, b_uk.skip(1), b_rev, b_tag);
            assert(ea.skip(1) =~= encoded_key(a_uk.skip(1), a_rev, a_tag));
            assert(eb.skip(1) =~= encoded_key(b_uk.skip(1), b_rev, b_tag));
            assert(ea[0] == a_uk[0] && eb[0] == b_uk[0]);
            assert(ea.len() > 0 && eb.len() > 0);
            assert(lex_lt(ea, eb) == lex_lt(ea.skip(1), eb.skip(1)));
            assert(lex_lt(a_uk, b_uk) == lex_lt(a_uk.skip(1), b_uk.skip(1)));
        }
    }
}

} // verus!
