//! Lexicographic order on byte strings.
//!
//! User keys, region boundaries and iterator bounds are all plain byte
//! strings compared lexicographically; this module defines that order once,
//! proves the facts the rest of the crate needs of it, and provides the
//! executable comparisons.

use vstd::prelude::*;

verus! {

/// Strict lexicographic order: a proper prefix sorts first, otherwise the
/// first differing byte decides.
pub open spec fn lex_lt(a: Seq<u8>, b: Seq<u8>) -> bool
    decreases a.len(),
{
    if b.len() == 0 {
        false
    } else if a.len() == 0 {
        true
    } else if a[0] < b[0] {
        true
    } else if a[0] > b[0] {
        false
    } else {
        lex_lt(a.skip(1), b.skip(1))
    }
}

pub open spec fn lex_le(a: Seq<u8>, b: Seq<u8>) -> bool {
    lex_lt(a, b) || a == b
}

pub proof fn lemma_lex_lt_irreflexive(a: Seq<u8>)
    ensures
        !lex_lt(a, a),
    decreases a.len(),
{
    if a.len() > 0 {
        lemma_lex_lt_irreflexive(a.skip(1));
    }
}

pub proof fn lemma_lex_lt_transitive(a: Seq<u8>, b: Seq<u8>, c: Seq<u8>)
    requires
        lex_lt(a, b),
        lex_lt(b, c),
    ensures
        lex_lt(a, c),
    decreases a.len(),
{
    if a.len() > 0 && b.len() > 0 && c.len() > 0 && a[0] == b[0] && b[0] == c[0] {
        lemma_lex_lt_transitive(a.skip(1), b.skip(1), c.skip(1));
    }
}

/// Any two byte strings are ordered or equal.
pub proof fn lemma_lex_lt_total(a: Seq<u8>, b: Seq<u8>)
    ensures
        lex_lt(a, b) || lex_lt(b, a) || a == b,
    decreases a.len(),
{
    if a.len() == 0 && b.len() == 0 {
        assert(a =~= b);
    } else if a.len() > 0 && b.len() > 0 && a[0] == b[0] {
        lemma_lex_lt_total(a.skip(1), b.skip(1));
        if !lex_lt(a, b) && !lex_lt(b, a) {
            assert(a.skip(1) == b.skip(1));
            assert(a.len() == b.len());
            assert forall|i: int| 0 <= i < a.len() implies a[i] == b[i] by {
                if i >= 1 {
                    assert(a[i] == a.skip(1)[i - 1]);
                    assert(b[i] == b.skip(1)[i - 1]);
                }
            }
            assert(a =~= b);
        }
    }
}

pub proof fn lemma_lex_lt_asymmetric(a: Seq<u8>, b: Seq<u8>)
    requires
        lex_lt(a, b),
    ensures
        !lex_lt(b, a),
{
    if lex_lt(b, a) {
        lemma_lex_lt_transitive(a, b, a);
        lemma_lex_lt_irreflexive(a);
    }
}

/// Dropping an equal prefix of both strings does not change their order.
pub proof fn lemma_lex_lt_common_prefix(a: Seq<u8>, b: Seq<u8>, i: int)
    requires
        0 <= i <= a.len(),
        i <= b.len(),
        forall|j: int| 0 <= j < i ==> a[j] == b[j],
    ensures
        lex_lt(a, b) == lex_lt(a.skip(i), b.skip(i)),
    decreases i,
{
    if i == 0 {
        assert(a.skip(0) =~= a);
        assert(b.skip(0) =~= b);
    } else {
        assert(a.len() > 0 && b.len() > 0 && a[0] == b[0]);
        assert forall|j: int| 0 <= j < i - 1 implies a.skip(1)[j] == b.skip(1)[j] by {
            assert(a.skip(1)[j] == a[j + 1]);
            assert(b.skip(1)[j] == b[j + 1]);
        }
        lemma_lex_lt_common_prefix(a.skip(1), b.skip(1), i - 1);
        assert(a.skip(1).skip(i - 1) =~= a.skip(i));
        assert(b.skip(1).skip(i - 1) =~= b.skip(i));
    }
}

/// No byte string lies strictly between `a` and `a` extended with a zero
/// byte: the successor used to restart scans just past a key.
pub proof fn lemma_lex_successor(a: Seq<u8>, x: Seq<u8>)
    requires
        lex_lt(a, x),
    ensures
        lex_le(a.push(0u8), x),
    decreases a.len(),
{
    if a.len() == 0 {
        assert(a.push(0u8).len() == 1);
        assert(a.push(0u8)[0] == 0u8);
        if x.len() > 0 && x[0] == 0u8 {
            if x.len() == 1 {
                assert(a.push(0u8) =~= x);
            } else {
                assert(a.push(0u8).skip(1) =~= Seq::<u8>::empty());
                assert(x.skip(1).len() > 0);
                assert(lex_lt(Seq::<u8>::empty(), x.skip(1)));
                assert(lex_lt(a.push(0u8), x));
            }
        } else {
            assert(x.len() > 0 && x[0] > 0u8);
            assert(lex_lt(a.push(0u8), x));
        }
    } else {
        assert(x.len() > 0);
        if a[0] == x[0] {
            assert(lex_lt(a.skip(1), x.skip(1)));
            lemma_lex_successor(a.skip(1), x.skip(1));
            assert(a.push(0u8).skip(1) =~= a.skip(1).push(0u8));
            assert(a.push(0u8)[0] == a[0]);
            if a.skip(1).push(0u8) == x.skip(1) {
                assert(a.push(0u8).len() == x.len());
                assert forall|i: int| 0 <= i < x.len() implies a.push(0u8)[i] == x[i] by {
                    if i >= 1 {
                        assert(a.push(0u8)[i] == a.push(0u8).skip(1)[i - 1]);
                        assert(x[i] == x.skip(1)[i - 1]);
                    }
                }
                assert(a.push(0u8) =~= x);
            } else {
                assert(lex_lt(a.skip(1).push(0u8), x.skip(1)));
                assert(lex_lt(a.push(0u8), x));
            }
        } else {
            assert(a.push(0u8)[0] == a[0]);
        }
    }
}

pub proof fn lemma_lex_lt_push_zero(a: Seq<u8>)
    ensures
        lex_lt(a, a.push(0u8)),
    decreases a.len(),
{
    if a.len() == 0 {
    } else {
        lemma_lex_lt_push_zero(a.skip(1));
        assert(a.push(0u8)[0] == a[0]);
        assert(a.push(0u8).skip(1) =~= a.skip(1).push(0u8));
    }
}

/// Executable strict comparison.
pub fn bytes_lt(a: &[u8], b: &[u8]) -> (r: bool)
    ensures
        r == lex_lt(a@, b@),
{
    let alen = a.len();
    let blen = b.len();
    let min = if alen < blen {
        alen
    } else {
        blen
    };
    let mut i: usize = 0;
    while i < min
        invariant
            i <= min,
            min <= alen,
            min <= blen,
            alen == a@.len(),
            blen == b@.len(),
            min == if alen < blen {
                alen
            } else {
                blen
            },
            forall|j: int| 0 <= j < i ==> a@[j] == b@[j],
        decreases min - i,
    {
        if a[i] < b[i] {
            proof {
                lemma_lex_lt_common_prefix(a@, b@, i as int);
                assert(a@.skip(i as int)[0] == a@[i as int]);
                assert(b@.skip(i as int)[0] == b@[i as int]);
            }
            return true;
        }
        if a[i] > b[i] {
            proof {
                lemma_lex_lt_common_prefix(a@, b@, i as int);
                assert(a@.skip(i as int)[0] == a@[i as int]);
                assert(b@.skip(i as int)[0] == b@[i as int]);
            }
            return false;
        }
        i += 1;
    }
    proof {
        lemma_lex_lt_common_prefix(a@, b@, min as int);
        assert(a@.skip(min as int).len() == alen - min);
        assert(b@.skip(min as int).len() == blen - min);
    }
    alen < blen
}

/// Executable non-strict comparison.
pub fn bytes_le(a: &[u8], b: &[u8]) -> (r: bool)
    ensures
        r == lex_le(a@, b@),
{
    let r = bytes_lt(b, a);
    proof {
        lemma_lex_lt_total(a@, b@);
        lemma_lex_lt_irreflexive(a@);
        if lex_lt(b@, a@) {
            lemma_lex_lt_asymmetric(b@, a@);
        }
    }
    !r
}

/// Executable equality of byte strings.
pub fn bytes_eq(a: &[u8], b: &[u8]) -> (r: bool)
    ensures
        r == (a@ == b@),
{
    if a.len() != b.len() {
        return false;
    }
    let mut i: usize = 0;
    while i < a.len()
        invariant
            i <= a@.len(),
            a@.len() == b@.len(),
            forall|j: int| 0 <= j < i ==> a@[j] == b@[j],
        decreases a@.len() - i,
    {
        if a[i] != b[i] {
            return false;
        }
        i += 1;
    }
    proof {
        assert(a@ =~= b@);
    }
    true
}

pub proof fn lemma_lex_le_lt_trans(a: Seq<u8>, b: Seq<u8>, c: Seq<u8>)
    requires
        lex_le(a, b),
        lex_lt(b, c),
    ensures
        lex_lt(a, c),
{
    if a != b {
        lemma_lex_lt_transitive(a, b, c);
    }
}

pub proof fn lemma_lex_lt_le_trans(a: Seq<u8>, b: Seq<u8>, c: Seq<u8>)
    requires
        lex_lt(a, b),
        lex_le(b, c),
    ensures
        lex_lt(a, c),
{
    if b != c {
        lemma_lex_lt_transitive(a, b, c);
    }
}

pub proof fn lemma_lex_le_trans(a: Seq<u8>, b: Seq<u8>, c: Seq<u8>)
    requires
        lex_le(a, b),
        lex_le(b, c),
    ensures
        lex_le(a, c),
{
    if a != b && b != c {
        lemma_lex_lt_transitive(a, b, c);
    }
}

pub proof fn lemma_lex_le_antisymmetric(a: Seq<u8>, b: Seq<u8>)
    requires
        lex_le(a, b),
        lex_le(b, a),
    ensures
        a == b,
{
    if a != b {
        lemma_lex_lt_asymmetric(a, b);
    }
}

} // verus!
