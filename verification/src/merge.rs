//! The mathematical k-way merge: what a priority-aware merge of sorted
//! sources yields. Sources are numbered by priority, lower number winning on
//! key collisions. One merge round surfaces the entry of the lowest-numbered
//! source holding the globally smallest head key, and discards the head of
//! every other source shadowed by that key.

use vstd::prelude::*;

use crate::iterators::entries_strictly_sorted;
use crate::order::{
    lemma_lex_asym, lemma_lex_le_lt_trans, lemma_lex_le_trans, lemma_lex_trichotomy, lex_le,
    lex_lt,
};

verus! {

/// The number of entries left over all sources.
pub open spec fn total_entries(srcs: Seq<Seq<(Seq<u8>, Seq<u8>)>>) -> nat
    decreases srcs.len(),
{
    if srcs.len() == 0 {
        0
    } else {
        srcs[0].len() + total_entries(srcs.drop_first())
    }
}

/// The smallest head key among the non-exhausted sources, or `None` when
/// every source is exhausted.
pub open spec fn min_head_key(srcs: Seq<Seq<(Seq<u8>, Seq<u8>)>>) -> Option<Seq<u8>>
    decreases srcs.len(),
{
    if srcs.len() == 0 {
        None
    } else {
        let rest = min_head_key(srcs.drop_first());
        if srcs[0].len() == 0 {
            rest
        } else {
            match rest {
                None => Some(srcs[0][0].0),
                Some(r) => if lex_lt(r, srcs[0][0].0) {
                    Some(r)
                } else {
                    Some(srcs[0][0].0)
                },
            }
        }
    }
}

/// The lowest-numbered source whose head key is `k`.
pub open spec fn first_with_head(srcs: Seq<Seq<(Seq<u8>, Seq<u8>)>>, k: Seq<u8>) -> int
    decreases srcs.len(),
{
    if srcs.len() == 0 {
        0
    } else if srcs[0].len() > 0 && srcs[0][0].0 == k {
        0
    } else {
        1 + first_with_head(srcs.drop_first(), k)
    }
}

/// Every source whose head key is `k` loses that head; the winner's entry
/// is surfaced, the others' are shadowed and silently discarded.
pub open spec fn drop_heads(srcs: Seq<Seq<(Seq<u8>, Seq<u8>)>>, k: Seq<u8>) -> Seq<
    Seq<(Seq<u8>, Seq<u8>)>,
> {
    Seq::new(
        srcs.len(),
        |i: int|
            if srcs[i].len() > 0 && srcs[i][0].0 == k {
                srcs[i].drop_first()
            } else {
                srcs[i]
            },
    )
}

/// The merged stream: while some source is non-exhausted, yield the head
/// entry of the lowest-numbered source holding the smallest head key, then
/// drop that key's head from every source holding it.
pub open spec fn merge_spec(srcs: Seq<Seq<(Seq<u8>, Seq<u8>)>>) -> Seq<(Seq<u8>, Seq<u8>)>
    decreases total_entries(srcs),
    via merge_spec_decreases
{
    match min_head_key(srcs) {
        None => Seq::empty(),
        Some(k) => seq![srcs[first_with_head(srcs, k)][0]] + merge_spec(drop_heads(srcs, k)),
    }
}

#[via_fn]
proof fn merge_spec_decreases(srcs: Seq<Seq<(Seq<u8>, Seq<u8>)>>) {
    lemma_min_head_key_props(srcs);
    match min_head_key(srcs) {
        None => {},
        Some(k) => {
            lemma_first_with_head(srcs, k);
            let w = first_with_head(srcs, k);
            assert forall|i: int| 0 <= i < srcs.len() implies (#[trigger] drop_heads(srcs, k)[i])
                .len() <= srcs[i].len() by {}
            lemma_total_entries_lt(drop_heads(srcs, k), srcs, w);
        },
    }
}

/// Entry totals compare pointwise: no longer anywhere, strictly shorter at
/// `w`, so strictly smaller in total.
pub proof fn lemma_total_entries_lt(
    a: Seq<Seq<(Seq<u8>, Seq<u8>)>>,
    b: Seq<Seq<(Seq<u8>, Seq<u8>)>>,
    w: int,
)
    requires
        a.len() == b.len(),
        forall|i: int| 0 <= i < a.len() ==> (#[trigger] a[i]).len() <= b[i].len(),
        0 <= w < a.len(),
        a[w].len() < b[w].len(),
    ensures
        total_entries(a) < total_entries(b),
    decreases a.len(),
{
    let ta = a.drop_first();
    let tb = b.drop_first();
    assert forall|i: int| 0 <= i < ta.len() implies (#[trigger] ta[i]).len() <= tb[i].len() by {
        assert(ta[i] == a[i + 1]);
        assert(tb[i] == b[i + 1]);
    }
    if w == 0 {
        lemma_total_entries_le(ta, tb);
    } else {
        lemma_total_entries_lt(ta, tb, w - 1);
        assert(ta[w - 1] == a[w]);
        assert(tb[w - 1] == b[w]);
    }
}

/// Entry totals compare pointwise.
pub proof fn lemma_total_entries_le(a: Seq<Seq<(Seq<u8>, Seq<u8>)>>, b: Seq<Seq<(Seq<u8>, Seq<u8>)>>)
    requires
        a.len() == b.len(),
        forall|i: int| 0 <= i < a.len() ==> (#[trigger] a[i]).len() <= b[i].len(),
    ensures
        total_entries(a) <= total_entries(b),
    decreases a.len(),
{
    if a.len() > 0 {
        let ta = a.drop_first();
        let tb = b.drop_first();
        assert forall|i: int| 0 <= i < ta.len() implies (#[trigger] ta[i]).len() <= tb[i].len() by {
            assert(ta[i] == a[i + 1]);
            assert(tb[i] == b[i + 1]);
        }
        lemma_total_entries_le(ta, tb);
    }
}

/// What the smallest head key is: absent exactly when every source is
/// exhausted; otherwise some source's head, and no source's head is smaller.
pub proof fn lemma_min_head_key_props(srcs: Seq<Seq<(Seq<u8>, Seq<u8>)>>)
    ensures
        min_head_key(srcs) is None ==> forall|i: int|
            0 <= i < srcs.len() ==> (#[trigger] srcs[i]).len() == 0,
        (forall|i: int| 0 <= i < srcs.len() ==> (#[trigger] srcs[i]).len() == 0) ==> min_head_key(
            srcs,
        ) is None,
        min_head_key(srcs) matches Some(k) ==> (exists|i: int|
            0 <= i < srcs.len() && (#[trigger] srcs[i]).len() > 0 && srcs[i][0].0 == k),
        min_head_key(srcs) matches Some(k) ==> (forall|i: int|
            0 <= i < srcs.len() && (#[trigger] srcs[i]).len() > 0 ==> lex_le(k, srcs[i][0].0)),
    decreases srcs.len(),
{
    if srcs.len() > 0 {
        let tail = srcs.drop_first();
        lemma_min_head_key_props(tail);
        assert forall|i: int| 0 <= i < tail.len() implies tail[i] == srcs[i + 1] by {}
        let rest = min_head_key(tail);
        if srcs[0].len() == 0 {
            match rest {
                None => {
                    assert forall|i: int| 0 <= i < srcs.len() implies (#[trigger] srcs[i]).len()
                        == 0 by {
                        if i > 0 {
                            assert(srcs[i] == tail[i - 1]);
                        }
                    }
                },
                Some(r) => {
                    let i0 = choose|i: int|
                        0 <= i < tail.len() && (#[trigger] tail[i]).len() > 0 && tail[i][0].0 == r;
                    assert(srcs[i0 + 1].len() > 0 && srcs[i0 + 1][0].0 == r);
                    assert forall|i: int|
                        0 <= i < srcs.len() && (#[trigger] srcs[i]).len() > 0 implies lex_le(
                        r,
                        srcs[i][0].0,
                    ) by {
                        assert(i > 0);
                        assert(srcs[i] == tail[i - 1]);
                    }
                },
            }
        } else {
            let k0 = srcs[0][0].0;
            match rest {
                None => {
                    assert forall|i: int|
                        0 <= i < srcs.len() && (#[trigger] srcs[i]).len() > 0 implies lex_le(
                        k0,
                        srcs[i][0].0,
                    ) by {
                        if i > 0 {
                            assert(srcs[i] == tail[i - 1]);
                        } else {
                            lemma_lex_trichotomy(k0, k0);
                        }
                    }
                },
                Some(r) => {
                    let k = if lex_lt(r, k0) {
                        r
                    } else {
                        k0
                    };
                    if lex_lt(r, k0) {
                        let i0 = choose|i: int|
                            0 <= i < tail.len() && (#[trigger] tail[i]).len() > 0 && tail[i][0].0
                                == r;
                        assert(srcs[i0 + 1].len() > 0 && srcs[i0 + 1][0].0 == r);
                    }
                    assert forall|i: int|
                        0 <= i < srcs.len() && (#[trigger] srcs[i]).len() > 0 implies lex_le(
                        k,
                        srcs[i][0].0,
                    ) by {
                        lemma_lex_trichotomy(r, k0);
                        if i == 0 {
                            assert(lex_le(k, k0));
                        } else {
                            assert(srcs[i] == tail[i - 1]);
                            assert(lex_le(r, srcs[i][0].0));
                            lemma_lex_le_trans(k, r, srcs[i][0].0);
                        }
                    }
                },
            }
        }
    }
}

/// The ordering law on numbered sources: the smaller head key wins; on equal
/// keys the smaller number wins; an exhausted source loses to any
/// non-exhausted one, and two exhausted sources are equal.
pub open spec fn source_le(a: (int, Seq<(Seq<u8>, Seq<u8>)>), b: (int, Seq<(Seq<u8>, Seq<u8>)>)) -> bool {
    if a.1.len() == 0 {
        b.1.len() == 0
    } else if b.1.len() == 0 {
        true
    } else {
        lex_lt(a.1[0].0, b.1[0].0) || (a.1[0].0 == b.1[0].0 && a.0 <= b.0)
    }
}

/// The ordering law is total.
pub proof fn lemma_source_le_total(a: (int, Seq<(Seq<u8>, Seq<u8>)>), b: (int, Seq<(Seq<u8>, Seq<u8>)>))
    ensures
        source_le(a, b) || source_le(b, a),
{
    if a.1.len() > 0 && b.1.len() > 0 {
        lemma_lex_trichotomy(a.1[0].0, b.1[0].0);
    }
}

/// The ordering law is transitive.
pub proof fn lemma_source_le_trans(
    a: (int, Seq<(Seq<u8>, Seq<u8>)>),
    b: (int, Seq<(Seq<u8>, Seq<u8>)>),
    c: (int, Seq<(Seq<u8>, Seq<u8>)>),
)
    requires
        source_le(a, b),
        source_le(b, c),
    ensures
        source_le(a, c),
{
    if a.1.len() > 0 && b.1.len() > 0 && c.1.len() > 0 {
        lemma_lex_le_lt_trans(a.1[0].0, b.1[0].0, c.1[0].0);
        lemma_lex_le_trans(a.1[0].0, b.1[0].0, c.1[0].0);
    }
}

/// A law-minimal source with a head entry is the winner of the merge round:
/// its head key is the smallest, it is the lowest-numbered holder of that
/// key, and the merged stream starts with its head entry.
pub proof fn lemma_winner(srcs: Seq<Seq<(Seq<u8>, Seq<u8>)>>, ci: int)
    requires
        0 <= ci < srcs.len(),
        srcs[ci].len() > 0,
        forall|j: int|
            0 <= j < srcs.len() && j != ci ==> source_le((ci, srcs[ci]), (j, #[trigger] srcs[j])),
    ensures
        min_head_key(srcs) == Some(srcs[ci][0].0),
        first_with_head(srcs, srcs[ci][0].0) == ci,
        merge_spec(srcs) == seq![srcs[ci][0]] + merge_spec(drop_heads(srcs, srcs[ci][0].0)),
        merge_spec(srcs).len() > 0,
        merge_spec(srcs)[0] == srcs[ci][0],
{
    let k = srcs[ci][0].0;
    lemma_min_head_key_props(srcs);
    match min_head_key(srcs) {
        None => {
            assert(srcs[ci].len() == 0);
        },
        Some(m) => {
            let h = choose|i: int|
                0 <= i < srcs.len() && (#[trigger] srcs[i]).len() > 0 && srcs[i][0].0 == m;
            assert(lex_le(m, k));
            if h != ci {
                assert(source_le((ci, srcs[ci]), (h, srcs[h])));
                assert(lex_le(k, m));
            }
            lemma_lex_asym(m, k);
            assert(m == k);
            lemma_first_with_head(srcs, k);
            let w = first_with_head(srcs, k);
            if w != ci {
                assert(source_le((ci, srcs[ci]), (w, srcs[w])));
                lemma_lex_asym(k, srcs[w][0].0);
                assert(ci <= w);
                assert(!(srcs[ci].len() > 0 && srcs[ci][0].0 == k));
            }
            assert(merge_spec(srcs) == seq![srcs[ci][0]] + merge_spec(drop_heads(srcs, k)));
            assert(merge_spec(srcs)[0] == srcs[ci][0]);
        },
    }
}

/// A merge of exhausted sources is empty.
pub proof fn lemma_merge_spec_empty(srcs: Seq<Seq<(Seq<u8>, Seq<u8>)>>)
    requires
        forall|i: int| 0 <= i < srcs.len() ==> (#[trigger] srcs[i]).len() == 0,
    ensures
        merge_spec(srcs) == Seq::<(Seq<u8>, Seq<u8>)>::empty(),
{
    lemma_min_head_key_props(srcs);
    match min_head_key(srcs) {
        None => {},
        Some(k) => {
            let i = choose|i: int|
                0 <= i < srcs.len() && (#[trigger] srcs[i]).len() > 0 && srcs[i][0].0 == k;
            assert(srcs[i].len() == 0);
        },
    }
}

/// Some entry of `s` carries the key `k`.
pub open spec fn entries_have_key(s: Seq<(Seq<u8>, Seq<u8>)>, k: Seq<u8>) -> bool {
    exists|p: int| 0 <= p < s.len() && (#[trigger] s[p]).0 == k
}

/// Some source holds an entry with the key `k`.
pub open spec fn sources_have_key(srcs: Seq<Seq<(Seq<u8>, Seq<u8>)>>, k: Seq<u8>) -> bool {
    exists|i: int| 0 <= i < srcs.len() && entries_have_key(#[trigger] srcs[i], k)
}

/// Dropping the head of a strictly sorted sequence keeps it strictly sorted.
pub proof fn lemma_sorted_drop_first(s: Seq<(Seq<u8>, Seq<u8>)>)
    requires
        entries_strictly_sorted(s),
        s.len() > 0,
    ensures
        entries_strictly_sorted(s.drop_first()),
{
    let t = s.drop_first();
    assert forall|i: int, j: int| 0 <= i < j < t.len() implies lex_lt(t[i].0, t[j].0) by {
        assert(t[i] == s[i + 1]);
        assert(t[j] == s[j + 1]);
    }
}

/// The global order and duplicate-resolution law of the merge: for sources
/// with strictly ascending keys, the merged stream's keys are strictly
/// ascending — so the output is non-decreasing and surfaces each distinct
/// key at most once — and the keys surfaced are exactly the keys held by
/// the sources, so each distinct key appears exactly once.
pub proof fn lemma_merge_spec_order(srcs: Seq<Seq<(Seq<u8>, Seq<u8>)>>)
    requires
        forall|i: int| 0 <= i < srcs.len() ==> entries_strictly_sorted(#[trigger] srcs[i]),
    ensures
        entries_strictly_sorted(merge_spec(srcs)),
        forall|k: Seq<u8>| entries_have_key(merge_spec(srcs), k) <==> sources_have_key(srcs, k),
    decreases total_entries(srcs),
{
    lemma_min_head_key_props(srcs);
    let merged = merge_spec(srcs);
    match min_head_key(srcs) {
        None => {
            assert(merged.len() == 0);
            assert forall|k: Seq<u8>| !sources_have_key(srcs, k) by {
                if sources_have_key(srcs, k) {
                    let i = choose|i: int|
                        0 <= i < srcs.len() && entries_have_key(#[trigger] srcs[i], k);
                    assert(srcs[i].len() == 0);
                    let p = choose|p: int| 0 <= p < srcs[i].len() && (#[trigger] srcs[i][p]).0 == k;
                }
            }
        },
        Some(k) => {
            lemma_first_with_head(srcs, k);
            let w = first_with_head(srcs, k);
            let e = srcs[w][0];
            let dh = drop_heads(srcs, k);
            assert forall|i: int| 0 <= i < dh.len() implies entries_strictly_sorted(
                #[trigger] dh[i],
            ) by {
                if srcs[i].len() > 0 && srcs[i][0].0 == k {
                    lemma_sorted_drop_first(srcs[i]);
                }
            }
            assert forall|i: int| 0 <= i < srcs.len() implies (#[trigger] dh[i]).len()
                <= srcs[i].len() by {}
            lemma_total_entries_lt(dh, srcs, w);
            lemma_merge_spec_order(dh);
            let tail = merge_spec(dh);
            assert(merged == seq![e] + tail);
            // every key left in the shadowed sources is strictly greater than k
            assert forall|i: int, p: int|
                0 <= i < dh.len() && 0 <= p < dh[i].len() implies lex_lt(
                k,
                (#[trigger] dh[i][p]).0,
            ) by {
                if srcs[i].len() > 0 && srcs[i][0].0 == k {
                    assert(dh[i][p] == srcs[i][p + 1]);
                    assert(lex_lt(srcs[i][0].0, srcs[i][p + 1].0));
                } else {
                    assert(dh[i] == srcs[i]);
                    assert(lex_le(k, srcs[i][0].0));
                    if p == 0 {
                        assert(srcs[i][0].0 != k);
                    } else {
                        assert(lex_lt(srcs[i][0].0, srcs[i][p].0));
                        lemma_lex_le_lt_trans(k, srcs[i][0].0, srcs[i][p].0);
                    }
                }
            }
            // so every key of the merged tail is strictly greater than k
            assert forall|t: int| 0 <= t < tail.len() implies lex_lt(k, (#[trigger] tail[t]).0) by {
                assert(entries_have_key(tail, tail[t].0));
                assert(sources_have_key(dh, tail[t].0));
                let i = choose|i: int|
                    0 <= i < dh.len() && entries_have_key(#[trigger] dh[i], tail[t].0);
                let p = choose|p: int| 0 <= p < dh[i].len() && (#[trigger] dh[i][p]).0 == tail[t].0;
            }
            assert forall|i: int, j: int| 0 <= i < j < merged.len() implies lex_lt(
                merged[i].0,
                merged[j].0,
            ) by {
                if i == 0 {
                    assert(merged[j] == tail[j - 1]);
                } else {
                    assert(merged[i] == tail[i - 1]);
                    assert(merged[j] == tail[j - 1]);
                }
            }
            // the surfaced keys are exactly k plus the keys of the shadowed rest
            assert forall|q: Seq<u8>| entries_have_key(merged, q) <==> sources_have_key(
                srcs,
                q,
            ) by {
                if entries_have_key(merged, q) {
                    let p = choose|p: int| 0 <= p < merged.len() && (#[trigger] merged[p]).0 == q;
                    if p == 0 {
                        assert(entries_have_key(srcs[w], q));
                    } else {
                        assert(merged[p] == tail[p - 1]);
                        assert(entries_have_key(tail, q));
                        assert(sources_have_key(dh, q));
                        let i = choose|i: int|
                            0 <= i < dh.len() && entries_have_key(#[trigger] dh[i], q);
                        let pp = choose|pp: int|
                            0 <= pp < dh[i].len() && (#[trigger] dh[i][pp]).0 == q;
                        if srcs[i].len() > 0 && srcs[i][0].0 == k {
                            assert(dh[i][pp] == srcs[i][pp + 1]);
                            assert(entries_have_key(srcs[i], q));
                        } else {
                            assert(entries_have_key(srcs[i], q));
                        }
                    }
                }
                if sources_have_key(srcs, q) {
                    let i = choose|i: int|
                        0 <= i < srcs.len() && entries_have_key(#[trigger] srcs[i], q);
                    let p = choose|p: int| 0 <= p < srcs[i].len() && (#[trigger] srcs[i][p]).0 == q;
                    if q == k {
                        assert(merged[0].0 == k);
                        assert(entries_have_key(merged, q));
                    } else {
                        // the entry survives the shadow drop
                        if srcs[i].len() > 0 && srcs[i][0].0 == k {
                            assert(p > 0);
                            assert(dh[i][p - 1] == srcs[i][p]);
                            assert(entries_have_key(dh[i], q));
                        } else {
                            assert(dh[i] == srcs[i]);
                            assert(entries_have_key(dh[i], q));
                        }
                        assert(sources_have_key(dh, q));
                        assert(entries_have_key(tail, q));
                        let t = choose|t: int| 0 <= t < tail.len() && (#[trigger] tail[t]).0 == q;
                        assert(merged[t + 1].0 == q);
                        assert(entries_have_key(merged, q));
                    }
                }
            }
        },
    }
}

/// One source after the shadow step: its head is discarded exactly when it
/// carries the shadowed key `k`.
pub open spec fn shadow_src(s: Seq<(Seq<u8>, Seq<u8>)>, k: Seq<u8>) -> Seq<(Seq<u8>, Seq<u8>)> {
    if s.len() > 0 && s[0].0 == k {
        s.drop_first()
    } else {
        s
    }
}

/// Once a sorted source's shadowed head is discarded, nothing further of
/// it carries the shadowed key.
pub proof fn lemma_shadow_src_idempotent(s: Seq<(Seq<u8>, Seq<u8>)>, k: Seq<u8>)
    requires
        entries_strictly_sorted(s),
    ensures
        shadow_src(shadow_src(s, k), k) == shadow_src(s, k),
{
    if s.len() > 0 && s[0].0 == k {
        let t = s.drop_first();
        if t.len() > 0 {
            assert(lex_lt(s[0].0, s[1].0));
            assert(t[0] == s[1]);
            if t[0].0 == k {
                lemma_lex_asym(k, t[0].0);
            }
        }
    }
}

/// Every pair names a priority slot below `n`.
pub open spec fn idx_bounded(pairs: Seq<(int, Seq<(Seq<u8>, Seq<u8>)>)>, n: nat) -> bool {
    forall|a: int| 0 <= a < pairs.len() ==> 0 <= (#[trigger] pairs[a]).0 < n
}

/// No two pairs name the same priority slot.
pub open spec fn idx_distinct(pairs: Seq<(int, Seq<(Seq<u8>, Seq<u8>)>)>) -> bool {
    forall|a: int, b: int|
        0 <= a < b < pairs.len() ==> (#[trigger] pairs[a]).0 != (#[trigger] pairs[b]).0
}

/// Some pair names the priority slot `i`.
pub open spec fn has_slot(pairs: Seq<(int, Seq<(Seq<u8>, Seq<u8>)>)>, i: int) -> bool {
    exists|a: int| 0 <= a < pairs.len() && (#[trigger] pairs[a]).0 == i
}

/// The positional view of a bag of numbered sources: slot `i` holds the
/// remaining entries of the source numbered `i`, or is empty where no such
/// source is left.
pub open spec fn slots_of(pairs: Seq<(int, Seq<(Seq<u8>, Seq<u8>)>)>, n: nat) -> Seq<
    Seq<(Seq<u8>, Seq<u8>)>,
>
    decreases pairs.len(),
{
    if pairs.len() == 0 {
        Seq::new(n as nat, |i: int| Seq::<(Seq<u8>, Seq<u8>)>::empty())
    } else {
        slots_of(pairs.drop_first(), n).update(pairs[0].0, pairs[0].1)
    }
}

/// What each slot holds: the named pair's entries, or nothing.
pub proof fn lemma_slots_of(pairs: Seq<(int, Seq<(Seq<u8>, Seq<u8>)>)>, n: nat)
    requires
        idx_bounded(pairs, n),
        idx_distinct(pairs),
    ensures
        slots_of(pairs, n).len() == n,
        forall|a: int|
            0 <= a < pairs.len() ==> slots_of(pairs, n)[(#[trigger] pairs[a]).0] == pairs[a].1,
        forall|i: int|
            0 <= i < n && !has_slot(pairs, i) ==> slots_of(pairs, n)[i] == Seq::<
                (Seq<u8>, Seq<u8>),
            >::empty(),
    decreases pairs.len(),
{
    if pairs.len() > 0 {
        let tail = pairs.drop_first();
        assert forall|a: int| 0 <= a < tail.len() implies #[trigger] tail[a] == pairs[a + 1] by {}
        lemma_slots_of(tail, n);
        assert forall|a: int| 0 <= a < pairs.len() implies slots_of(pairs, n)[(
        #[trigger] pairs[a]).0] == pairs[a].1 by {
            if a > 0 {
                assert(pairs[a] == tail[a - 1]);
                assert(pairs[a].0 != pairs[0].0);
            }
        }
        assert forall|i: int| 0 <= i < n && !has_slot(pairs, i) implies slots_of(pairs, n)[i]
            == Seq::<(Seq<u8>, Seq<u8>)>::empty() by {
            assert(pairs[0].0 != i);
            if has_slot(tail, i) {
                let a = choose|a: int| 0 <= a < tail.len() && (#[trigger] tail[a]).0 == i;
                assert(pairs[a + 1].0 == i);
            }
        }
    }
}

/// Two bags naming the same pairs fill the slots identically.
pub proof fn lemma_slots_of_same(
    p1: Seq<(int, Seq<(Seq<u8>, Seq<u8>)>)>,
    p2: Seq<(int, Seq<(Seq<u8>, Seq<u8>)>)>,
    n: nat,
)
    requires
        idx_bounded(p1, n),
        idx_distinct(p1),
        idx_bounded(p2, n),
        idx_distinct(p2),
        forall|x: (int, Seq<(Seq<u8>, Seq<u8>)>)| p1.contains(x) <==> p2.contains(x),
    ensures
        slots_of(p1, n) == slots_of(p2, n),
{
    lemma_slots_of(p1, n);
    lemma_slots_of(p2, n);
    assert forall|i: int| 0 <= i < n implies slots_of(p1, n)[i] == slots_of(p2, n)[i] by {
        if has_slot(p1, i) {
            let a = choose|a: int| 0 <= a < p1.len() && (#[trigger] p1[a]).0 == i;
            assert(p1.contains(p1[a]));
            assert(p2.contains(p1[a]));
            let b = choose|b: int| 0 <= b < p2.len() && p2[b] == p1[a];
            assert(slots_of(p2, n)[p2[b].0] == p2[b].1);
        } else if has_slot(p2, i) {
            let b = choose|b: int| 0 <= b < p2.len() && (#[trigger] p2[b]).0 == i;
            assert(p2.contains(p2[b]));
            assert(p1.contains(p2[b]));
            let a = choose|a: int| 0 <= a < p1.len() && p1[a] == p2[b];
            assert(has_slot(p1, i));
        }
    }
    assert(slots_of(p1, n) =~= slots_of(p2, n));
}

/// Moving one pair of a bag to the front names the same pairs.
pub proof fn lemma_pairs_reinsert(pairs: Seq<(int, Seq<(Seq<u8>, Seq<u8>)>)>, q: int)
    requires
        0 <= q < pairs.len(),
    ensures
        forall|x: (int, Seq<(Seq<u8>, Seq<u8>)>)|
            (seq![pairs[q]] + pairs.remove(q)).contains(x) <==> pairs.contains(x),
{
    let moved = seq![pairs[q]] + pairs.remove(q);
    assert forall|x: (int, Seq<(Seq<u8>, Seq<u8>)>)| moved.contains(x) <==> pairs.contains(
        x,
    ) by {
        if moved.contains(x) {
            let a = choose|a: int| 0 <= a < moved.len() && moved[a] == x;
            if a == 0 {
                assert(pairs[q] == x);
            } else if a - 1 < q {
                assert(pairs.remove(q)[a - 1] == pairs[a - 1]);
            } else {
                assert(pairs.remove(q)[a - 1] == pairs[a]);
            }
        }
        if pairs.contains(x) {
            let a = choose|a: int| 0 <= a < pairs.len() && pairs[a] == x;
            if a == q {
                assert(moved[0] == x);
            } else if a < q {
                assert(pairs.remove(q)[a] == pairs[a]);
                assert(moved[a + 1] == x);
            } else {
                assert(pairs.remove(q)[a - 1] == pairs[a]);
                assert(moved[a] == x);
            }
        }
    }
}

/// Moving one pair of a well-formed bag to the front keeps the bag well
/// formed and fills the slots identically.
pub proof fn lemma_reinsert_wf(pairs: Seq<(int, Seq<(Seq<u8>, Seq<u8>)>)>, q: int, n: nat)
    requires
        0 <= q < pairs.len(),
        idx_bounded(pairs, n),
        idx_distinct(pairs),
    ensures
        idx_bounded(seq![pairs[q]] + pairs.remove(q), n),
        idx_distinct(seq![pairs[q]] + pairs.remove(q)),
        slots_of(seq![pairs[q]] + pairs.remove(q), n) == slots_of(pairs, n),
{
    lemma_pairs_reinsert(pairs, q);
    let moved = seq![pairs[q]] + pairs.remove(q);
    assert forall|a: int| 0 <= a < moved.len() implies 0 <= (#[trigger] moved[a]).0 < n by {
        assert(moved.contains(moved[a]));
        assert(pairs.contains(moved[a]));
        let b = choose|b: int| 0 <= b < pairs.len() && pairs[b] == moved[a];
    }
    assert forall|a: int, b: int| 0 <= a < b < moved.len() implies (#[trigger] moved[a]).0 != (
    #[trigger] moved[b]).0 by {
        let pa: int = if a == 0 {
            q
        } else if a - 1 < q {
            a - 1
        } else {
            a
        };
        let pb: int = if b == 0 {
            q
        } else if b - 1 < q {
            b - 1
        } else {
            b
        };
        assert(moved[a] == pairs[pa]);
        assert(moved[b] == pairs[pb]);
        assert(pa != pb);
        if pa < pb {
            assert(pairs[pa].0 != pairs[pb].0);
        } else {
            assert(pairs[pb].0 != pairs[pa].0);
        }
    }
    lemma_slots_of_same(moved, pairs, n);
}

/// Where the winner stands: the lowest-numbered source whose head key is
/// `k`, when one exists at all.
pub proof fn lemma_first_with_head(srcs: Seq<Seq<(Seq<u8>, Seq<u8>)>>, k: Seq<u8>)
    requires
        exists|i: int| 0 <= i < srcs.len() && (#[trigger] srcs[i]).len() > 0 && srcs[i][0].0 == k,
    ensures
        0 <= first_with_head(srcs, k) < srcs.len(),
        srcs[first_with_head(srcs, k)].len() > 0,
        srcs[first_with_head(srcs, k)][0].0 == k,
        forall|i: int|
            0 <= i < first_with_head(srcs, k) ==> !((#[trigger] srcs[i]).len() > 0 && srcs[i][0].0
                == k),
    decreases srcs.len(),
{
    if srcs.len() > 0 {
        if srcs[0].len() > 0 && srcs[0][0].0 == k {
        } else {
            let tail = srcs.drop_first();
            let i0 = choose|i: int|
                0 <= i < srcs.len() && (#[trigger] srcs[i]).len() > 0 && srcs[i][0].0 == k;
            assert(i0 > 0);
            assert(tail[i0 - 1] == srcs[i0]);
            lemma_first_with_head(tail, k);
            assert forall|i: int| 0 < i < first_with_head(srcs, k) implies !((
            #[trigger] srcs[i]).len() > 0 && srcs[i][0].0 == k) by {
                assert(srcs[i] == tail[i - 1]);
            }
        }
    }
}

} // verus!
