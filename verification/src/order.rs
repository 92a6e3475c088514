//! Byte-wise lexicographic order on keys, with the order lemmas the block
//! and merge proofs rest on, and executable comparisons proved against it.

use vstd::prelude::*;

verus! {

/// `a` comes strictly before `b` in byte-wise lexicographic order.
pub open spec fn lex_lt(a: Seq<u8>, b: Seq<u8>) -> bool
    decreases a.len(),
{
    if b.len() == 0 {
        false
    } else if a.len() == 0 {
        true
    } else if a[0] < b[0] {
        true
    } else if a[0] > b[0] {
        false
    } else {
        lex_lt(a.drop_first(), b.drop_first())
    }
}

/// `a` comes before `b` or equals it.
pub open spec fn lex_le(a: Seq<u8>, b: Seq<u8>) -> bool {
    lex_lt(a, b) || a == b
}

/// Any two keys are ordered: one comes first, or they are equal.
pub proof fn lemma_lex_trichotomy(a: Seq<u8>, b: Seq<u8>)
    ensures
        lex_lt(a, b) || lex_lt(b, a) || a == b,
    decreases a.len(),
{
    if a.len() == 0 && b.len() == 0 {
        assert(a =~= b);
    } else if a.len() > 0 && b.len() > 0 && a[0] == b[0] {
        lemma_lex_trichotomy(a.drop_first(), b.drop_first());
        if a.drop_first() == b.drop_first() {
            assert(a.drop_first().len() == b.drop_first().len());
            assert(a.len() == b.len());
            assert forall|i: int| 0 <= i < a.len() implies a[i] == b[i] by {
                if i > 0 {
                    assert(a[i] == a.drop_first()[i - 1]);
                    assert(b[i] == b.drop_first()[i - 1]);
                }
            }
            assert(a =~= b);
        }
    }
}

/// The order is asymmetric.
pub proof fn lemma_lex_asym(a: Seq<u8>, b: Seq<u8>)
    ensures
        lex_lt(a, b) ==> !lex_lt(b, a),
    decreases a.len(),
{
    if a.len() > 0 && b.len() > 0 && a[0] == b[0] {
        lemma_lex_asym(a.drop_first(), b.drop_first());
    }
}

/// The order is transitive.
pub proof fn lemma_lex_trans(a: Seq<u8>, b: Seq<u8>, c: Seq<u8>)
    ensures
        lex_lt(a, b) && lex_lt(b, c) ==> lex_lt(a, c),
    decreases a.len(),
{
    if a.len() > 0 && b.len() > 0 && c.len() > 0 {
        lemma_lex_trans(a.drop_first(), b.drop_first(), c.drop_first());
    }
}

/// The reflexive order is transitive.
pub proof fn lemma_lex_le_trans(a: Seq<u8>, b: Seq<u8>, c: Seq<u8>)
    ensures
        lex_le(a, b) && lex_le(b, c) ==> lex_le(a, c),
{
    lemma_lex_trans(a, b, c);
}

/// A strict step after a reflexive one is still strict.
pub proof fn lemma_lex_le_lt_trans(a: Seq<u8>, b: Seq<u8>, c: Seq<u8>)
    ensures
        lex_le(a, b) && lex_lt(b, c) ==> lex_lt(a, c),
{
    lemma_lex_trans(a, b, c);
}

/// Whether `a` comes strictly before `b`; the executable side of `lex_lt`.
pub fn bytes_lt(a: &[u8], b: &[u8]) -> (r: bool)
    ensures
        r == lex_lt(a@, b@),
    decreases a@.len(),
{
    if b.len() == 0 {
        false
    } else if a.len() == 0 {
        true
    } else {
        let x = *vstd::slice::slice_index_get(a, 0);
        let y = *vstd::slice::slice_index_get(b, 0);
        if x < y {
            true
        } else if x > y {
            false
        } else {
            let ta = vstd::slice::slice_subrange(a, 1, a.len());
            let tb = vstd::slice::slice_subrange(b, 1, b.len());
            proof {
                assert(ta@ =~= a@.drop_first());
                assert(tb@ =~= b@.drop_first());
            }
            bytes_lt(ta, tb)
        }
    }
}

/// Whether `a` and `b` hold the same bytes.
pub fn bytes_eq(a: &[u8], b: &[u8]) -> (r: bool)
    ensures
        r == (a@ == b@),
    decreases a@.len(),
{
    if a.len() != b.len() {
        proof {
            assert(a@.len() != b@.len());
        }
        false
    } else if a.len() == 0 {
        proof {
            assert(a@ =~= b@);
        }
        true
    } else {
        let x = *vstd::slice::slice_index_get(a, 0);
        let y = *vstd::slice::slice_index_get(b, 0);
        if x != y {
            proof {
                assert(a@ != b@) by {
                    assert(a@[0] != b@[0]);
                }
            }
            false
        } else {
            let ta = vstd::slice::slice_subrange(a, 1, a.len());
            let tb = vstd::slice::slice_subrange(b, 1, b.len());
            let r = bytes_eq(ta, tb);
            proof {
                assert(ta@ =~= a@.drop_first());
                assert(tb@ =~= b@.drop_first());
                if r {
                    assert forall|i: int| 0 <= i < a@.len() implies a@[i] == b@[i] by {
                        if i > 0 {
                            assert(a@[i] == a@.drop_first()[i - 1]);
                            assert(b@[i] == b@.drop_first()[i - 1]);
                        }
                    }
                    assert(a@ =~= b@);
                } else {
                    assert(a@ != b@) by {
                        if a@ == b@ {
                            assert(a@.drop_first() =~= b@.drop_first());
                        }
                    }
                }
            }
            r
        }
    }
}

} // verus!
