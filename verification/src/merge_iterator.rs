//! The k-way merge iterator: combines numbered sorted sources into one
//! sorted, duplicate-resolved stream. A source's position in the input list
//! is its priority; a lower number wins on key collisions, modelling
//! freshness across storage levels. A merge iterator offers the same
//! capability as its sources, so merges compose recursively.

use vstd::prelude::*;

use crate::errors::Error;
use crate::iterators::{entries_strictly_sorted, StorageIterator};
use crate::merge::{
    drop_heads, has_slot, idx_bounded, idx_distinct, lemma_merge_spec_empty,
    lemma_merge_spec_order, lemma_reinsert_wf, lemma_shadow_src_idempotent, lemma_slots_of,
    lemma_source_le_total, lemma_source_le_trans, lemma_winner, merge_spec, shadow_src, slots_of,
    source_le,
};
use crate::order::{bytes_eq, bytes_lt, lex_lt};

verus! {

/// Merges the streams of several sources of one kind. A source's number is
/// its position in the list handed to `create`: lower numbers take priority
/// on duplicate keys. The active source (the one whose head entry `peek`
/// surfaces) is held apart from the pool of waiting sources; a failed
/// source is dropped from the pool and never consulted again.
pub struct MergeIterator<I: StorageIterator> {
    /// The active source and its number: law-minimal among all wrapped
    /// sources, so its head entry is the globally smallest.
    current: Option<(usize, Box<I>)>,
    /// The waiting sources with their numbers, in no particular order.
    rest: Vec<(usize, Box<I>)>,
    /// How many sources the merge started with; slot numbers stay below it.
    slots: Ghost<nat>,
}

impl<I: StorageIterator> MergeIterator<I> {
    /// The numbered streams of a pool of wrapped sources.
    pub closed spec fn rest_pairs(v: Seq<(usize, Box<I>)>) -> Seq<(int, Seq<(Seq<u8>, Seq<u8>)>)> {
        Seq::new(v.len(), |j: int| (v[j].0 as int, (*v[j].1).remaining()))
    }

    /// All numbered streams still wrapped, the active one first.
    pub closed spec fn pairs(&self) -> Seq<(int, Seq<(Seq<u8>, Seq<u8>)>)> {
        match self.current {
            Some(c) => seq![(c.0 as int, (*c.1).remaining())] + Self::rest_pairs(self.rest@),
            None => Self::rest_pairs(self.rest@),
        }
    }

    /// The positional view: slot `i` holds the stream of the source
    /// numbered `i`, or nothing once that source is gone or exhausted.
    pub closed spec fn model(&self) -> Seq<Seq<(Seq<u8>, Seq<u8>)>> {
        slots_of(self.pairs(), self.slots@)
    }

    /// The active source's number.
    pub closed spec fn cur_idx(&self) -> int {
        self.current->Some_0.0 as int
    }

    /// The active source's stream.
    pub closed spec fn cur_rem(&self) -> Seq<(Seq<u8>, Seq<u8>)> {
        (*self.current->Some_0.1).remaining()
    }

    /// The slot characterization of a well-formed merge: the model reflects
    /// each wrapped source, and the active source is law-minimal slot-wise.
    proof fn lemma_model(&self)
        requires
            self.inv(),
            self.current is Some,
        ensures
            self.model().len() == self.slots@,
            0 <= self.cur_idx() < self.slots@,
            self.model()[self.cur_idx()] == self.cur_rem(),
            forall|j: int|
                0 <= j < self.model().len() && j != self.cur_idx() ==> source_le(
                    (self.cur_idx(), self.cur_rem()),
                    (j, #[trigger] self.model()[j]),
                ),
    {
        lemma_slots_of(self.pairs(), self.slots@);
        let ci = self.cur_idx();
        assert(self.pairs()[0] == (ci, self.cur_rem()));
        assert forall|j: int|
            0 <= j < self.model().len() && j != ci implies source_le(
            (ci, self.cur_rem()),
            (j, #[trigger] self.model()[j]),
        ) by {
            if has_slot(self.pairs(), j) {
                let a = choose|a: int|
                    0 <= a < self.pairs().len() && (#[trigger] self.pairs()[a]).0 == j;
                assert(a > 0);
                assert(self.pairs()[a] == (self.rest@[a - 1].0 as int, (*self.rest@[a
                    - 1].1).remaining()));
                assert(self.model()[j] == self.pairs()[a].1);
            } else {
                assert(self.model()[j] == Seq::<(Seq<u8>, Seq<u8>)>::empty());
            }
        }
    }

    /// The head of the merged stream is the active source's head entry; the
    /// merge is exhausted exactly when the active source is.
    proof fn lemma_head(&self)
        requires
            self.inv(),
            self.current is Some,
        ensures
            self.remaining() == merge_spec(self.model()),
            self.cur_rem().len() > 0 <==> self.remaining().len() > 0,
            self.cur_rem().len() > 0 ==> self.remaining()[0] == self.cur_rem()[0]
                && self.remaining() == seq![self.cur_rem()[0]] + merge_spec(
                drop_heads(self.model(), self.cur_rem()[0].0),
            ),
    {
        self.lemma_model();
        let ci = self.cur_idx();
        if self.cur_rem().len() > 0 {
            lemma_winner(self.model(), ci);
        } else {
            assert forall|i: int| 0 <= i < self.model().len() implies (
            #[trigger] self.model()[i]).len() == 0 by {
                if i != ci {
                    assert(source_le((ci, self.cur_rem()), (i, self.model()[i])));
                }
            }
            lemma_merge_spec_empty(self.model());
        }
    }

    /// Taking one wrapped source out of the pool takes its numbered stream
    /// out of the bag of pairs, at the same position.
    proof fn lemma_popped_pairs(
        pre: Seq<(usize, Box<I>)>,
        post: Seq<(usize, Box<I>)>,
        q: int,
    )
        requires
            0 <= q < pre.len(),
            post == pre.remove(q),
        ensures
            Self::rest_pairs(post) == Self::rest_pairs(pre).remove(q),
    {
        assert forall|t: int| 0 <= t < post.len() implies #[trigger] Self::rest_pairs(post)[t]
            == Self::rest_pairs(pre).remove(q)[t] by {
            if t < q {
                assert(post[t] == pre[t]);
                assert(Self::rest_pairs(pre).remove(q)[t] == Self::rest_pairs(pre)[t]);
            } else {
                assert(post[t] == pre[t + 1]);
                assert(Self::rest_pairs(pre).remove(q)[t] == Self::rest_pairs(pre)[t + 1]);
            }
        }
        assert(Self::rest_pairs(post) =~= Self::rest_pairs(pre).remove(q));
    }

    /// Whether `a` comes no later than `b` under the ordering law: smaller
    /// head key first, then smaller number; exhausted sources last.
    fn wrapper_le(a: &(usize, Box<I>), b: &(usize, Box<I>)) -> (r: bool)
        requires
            (*a.1).inv(),
            (*b.1).inv(),
        ensures
            r == source_le((a.0 as int, (*a.1).remaining()), (b.0 as int, (*b.1).remaining())),
    {
        match (a.1.peek(), b.1.peek()) {
            (Some(pa), Some(pb)) => {
                if bytes_lt(pa.0, pb.0) {
                    true
                } else if bytes_eq(pa.0, pb.0) {
                    a.0 <= b.0
                } else {
                    false
                }
            },
            (Some(_), None) => true,
            (None, Some(_)) => false,
            (None, None) => true,
        }
    }

    /// Removes and returns a law-minimal wrapped source from the pool.
    fn pop_min(v: &mut Vec<(usize, Box<I>)>) -> (r: Option<(usize, Box<I>)>)
        requires
            forall|j: int| 0 <= j < old(v)@.len() ==> (*(#[trigger] old(v)@[j]).1).inv(),
        ensures
            match r {
                None => old(v)@.len() == 0 && final(v)@ == old(v)@,
                Some(p) => {
                    &&& old(v)@.len() > 0
                    &&& (*p.1).inv()
                    &&& (exists|q: int|
                        0 <= q < old(v)@.len() && old(v)@[q] == p && final(v)@ == old(v)@.remove(
                            q,
                        ))
                    &&& forall|j: int|
                        0 <= j < final(v)@.len() ==> (*(#[trigger] final(v)@[j]).1).inv()
                    &&& forall|j: int|
                        0 <= j < final(v)@.len() ==> source_le(
                            (p.0 as int, (*p.1).remaining()),
                            ((#[trigger] final(v)@[j]).0 as int, (*final(v)@[j].1).remaining()),
                        )
                },
            },
    {
        if v.len() == 0 {
            return None;
        }
        let mut best: usize = 0;
        let mut j: usize = 1;
        while j < v.len()
            invariant
                v@ == old(v)@,
                forall|t: int| 0 <= t < v@.len() ==> (*(#[trigger] v@[t]).1).inv(),
                0 <= best < j <= v@.len(),
                forall|t: int|
                    0 <= t < j ==> source_le(
                        (v@[best as int].0 as int, (*v@[best as int].1).remaining()),
                        ((#[trigger] v@[t]).0 as int, (*v@[t].1).remaining()),
                    ),
            decreases v@.len() - j,
        {
            let s = v.as_slice();
            let keep = Self::wrapper_le(
                vstd::slice::slice_index_get(s, best),
                vstd::slice::slice_index_get(s, j),
            );
            if !keep {
                proof {
                    let pb = (v@[best as int].0 as int, (*v@[best as int].1).remaining());
                    let pj = (v@[j as int].0 as int, (*v@[j as int].1).remaining());
                    lemma_source_le_total(pb, pj);
                    assert forall|t: int| 0 <= t < j + 1 implies source_le(
                        pj,
                        ((#[trigger] v@[t]).0 as int, (*v@[t].1).remaining()),
                    ) by {
                        if t < j {
                            lemma_source_le_trans(pj, pb, (v@[t].0 as int, (*v@[t].1).remaining()));
                        }
                    }
                }
                best = j;
            }
            j = j + 1;
        }
        let ghost pre = v@;
        let p = v.remove(best);
        proof {
            assert forall|t: int| 0 <= t < final(v)@.len() implies source_le(
                (p.0 as int, (*p.1).remaining()),
                ((#[trigger] final(v)@[t]).0 as int, (*final(v)@[t].1).remaining()),
            ) by {
                if t < best {
                    assert(final(v)@[t] == pre[t]);
                } else {
                    assert(final(v)@[t] == pre[t + 1]);
                }
            }
            assert forall|t: int| 0 <= t < final(v)@.len() implies (*(
            #[trigger] final(v)@[t]).1).inv() by {
                if t < best {
                    assert(final(v)@[t] == pre[t]);
                } else {
                    assert(final(v)@[t] == pre[t + 1]);
                }
            }
        }
        Some(p)
    }

    /// Wraps each source with its list position as its priority number and
    /// selects the law-minimal one as the active source. The merged stream
    /// is the priority merge of the sources' streams; with no sources at
    /// all it is empty from the start. A source that is already exhausted
    /// is wrapped like any other.
    pub fn create(iters: Vec<Box<I>>) -> (r: MergeIterator<I>)
        requires
            forall|i: int| 0 <= i < iters@.len() ==> (*#[trigger] iters@[i]).inv(),
        ensures
            r.inv(),
            r.remaining() == merge_spec(Seq::new(iters@.len(), |i: int| (*iters@[i]).remaining())),
    {
        let ghost orig = iters@;
        let mut src = iters;
        let total = src.len();
        let mut rest: Vec<(usize, Box<I>)> = Vec::new();
        let mut idx: usize = 0;
        while idx < total
            invariant
                total == orig.len(),
                idx <= total,
                idx + src@.len() == orig.len(),
                rest@.len() == idx,
                src@ == orig.skip(idx as int),
                forall|i: int| 0 <= i < orig.len() ==> (*#[trigger] orig[i]).inv(),
                forall|t: int|
                    0 <= t < idx ==> (#[trigger] rest@[t]).0 == t && rest@[t].1 == orig[t],
            decreases src@.len(),
        {
            let it = src.remove(0);
            rest.push((idx, it));
            proof {
                assert(src@ =~= orig.skip(idx + 1));
            }
            idx = idx + 1;
        }
        let ghost n = orig.len();
        let ghost pool = Self::rest_pairs(rest@);
        proof {
            assert forall|t: int| 0 <= t < n implies (#[trigger] pool[t]).0 == t && pool[t].1 == (
            *orig[t]).remaining() by {}
            assert(idx_bounded(pool, n));
            assert(idx_distinct(pool));
            assert forall|t: int| 0 <= t < rest@.len() implies (*(
            #[trigger] rest@[t]).1).inv() by {}
        }
        let ghost pre_pop = rest@;
        let current = Self::pop_min(&mut rest);
        let r = MergeIterator { current, rest, slots: Ghost(n) };
        proof {
            let target = Seq::new(n, |i: int| (*orig[i]).remaining());
            lemma_slots_of(pool, n);
            assert forall|i: int| 0 <= i < n implies slots_of(pool, n)[i] == target[i] by {
                assert(pool[i].0 == i);
                assert(slots_of(pool, n)[pool[i].0] == pool[i].1);
            }
            assert(slots_of(pool, n) =~= target);
            if r.current is Some {
                let p = r.current->Some_0;
                let q = choose|q: int|
                    0 <= q < pre_pop.len() && pre_pop[q] == p && r.rest@ == pre_pop.remove(q);
                Self::lemma_popped_pairs(pre_pop, r.rest@, q);
                assert(pool[q] == (p.0 as int, (*p.1).remaining()));
                assert(r.pairs() =~= seq![pool[q]] + pool.remove(q));
                lemma_reinsert_wf(pool, q, n);
                assert(r.inv());
                assert(r.model() == slots_of(pool, n));
                assert(r.remaining() == merge_spec(target));
            } else {
                assert(pool.len() == 0);
                assert forall|i: int| 0 <= i < target.len() implies (
                #[trigger] target[i]).len() == 0 by {}
                lemma_merge_spec_empty(target);
                assert(r.pairs() =~= pool);
                assert(r.inv());
            }
        }
        r
    }
}

impl<I: StorageIterator> StorageIterator for MergeIterator<I> {
    closed spec fn inv(&self) -> bool {
        &&& idx_bounded(self.pairs(), self.slots@)
        &&& idx_distinct(self.pairs())
        &&& (match self.current {
            Some(c) => (*c.1).inv(),
            None => true,
        })
        &&& forall|j: int| 0 <= j < self.rest@.len() ==> (*(#[trigger] self.rest@[j]).1).inv()
        &&& (match self.current {
            Some(c) => forall|j: int|
                0 <= j < self.rest@.len() ==> source_le(
                    (c.0 as int, (*c.1).remaining()),
                    ((#[trigger] self.rest@[j]).0 as int, (*self.rest@[j].1).remaining()),
                ),
            None => true,
        })
    }

    closed spec fn remaining(&self) -> Seq<(Seq<u8>, Seq<u8>)> {
        if self.current is Some {
            merge_spec(self.model())
        } else {
            Seq::empty()
        }
    }

    proof fn lemma_remaining_sorted(&self) {
        match self.current {
            None => {},
            Some(c) => {
                lemma_slots_of(self.pairs(), self.slots@);
                assert forall|i: int| 0 <= i < self.model().len() implies entries_strictly_sorted(
                    #[trigger] self.model()[i],
                ) by {
                    if has_slot(self.pairs(), i) {
                        let a = choose|a: int|
                            0 <= a < self.pairs().len() && (#[trigger] self.pairs()[a]).0 == i;
                        if a == 0 {
                            (*c.1).lemma_remaining_sorted();
                        } else {
                            (*self.rest@[a - 1].1).lemma_remaining_sorted();
                        }
                        assert(self.model()[i] == self.pairs()[a].1);
                    }
                }
                lemma_merge_spec_order(self.model());
            },
        }
    }

    /// The head of the merged stream: the smallest key among all wrapped
    /// sources, with the value from the lowest-numbered source holding it.
    fn peek(&self) -> (r: Option<(&[u8], &[u8])>) {
        match &self.current {
            None => None,
            Some(c) => {
                let r = c.1.peek();
                proof {
                    self.lemma_head();
                }
                r
            },
        }
    }

    /// One merge round: discard the head entry of every waiting source
    /// shadowed by the active source's key, advance the active source past
    /// the entry it surfaced, return it to the pool and pick the new
    /// law-minimal source. Advancing an exhausted merge is a safe no-op
    /// that always succeeds. A failure of a source's own advance is
    /// propagated, and exactly the failing source leaves the merge: when a
    /// waiting source fails while its shadowed head is discarded, the
    /// surfaced entry survives and the stream becomes the merge without
    /// that source; when the active source fails past its surfaced entry,
    /// the stream becomes the rest of the merge without it.
    fn next(&mut self) -> (r: Result<(), Error>)
        ensures
            old(self).remaining().len() == 0 ==> r is Ok,
            r is Err ==> old(self).remaining().len() > 0,
            r is Err ==> (exists|f: int|
                #![trigger old(self).model().update(f, Seq::<(Seq<u8>, Seq<u8>)>::empty())]
                0 <= f < old(self).model().len() && ((f == old(self).cur_idx()
                    && final(self).remaining() == merge_spec(
                    drop_heads(old(self).model(), old(self).remaining()[0].0).update(
                        f,
                        Seq::<(Seq<u8>, Seq<u8>)>::empty(),
                    ),
                )) || (f != old(self).cur_idx() && final(self).remaining() == merge_spec(
                    old(self).model().update(f, Seq::<(Seq<u8>, Seq<u8>)>::empty()),
                ) && final(self).remaining().len() > 0
                    && final(self).remaining()[0] == old(self).remaining()[0]))),
    {
        let ghost n = self.slots@;
        let cur = self.current.take();
        match cur {
            None => {
                proof {
                    assert(*self == *old(self));
                }
                Ok(())
            },
            Some((ci, mut cb)) => {
                let ghost cr = (*cb).remaining();
                let exhausted = match cb.peek() {
                    None => true,
                    Some(_) => false,
                };
                if exhausted {
                    self.current = Some((ci, cb));
                    proof {
                        assert(*self == *old(self));
                        old(self).lemma_head();
                    }
                    return Ok(());
                }
                let k_owned = match cb.peek() {
                    Some((k, _)) => vstd::slice::slice_to_vec(k),
                    None => Vec::new(),
                };
                let ghost kk = cr[0].0;
                let ghost r0 = self.rest@;
                proof {
                    assert(old(self).pairs() =~= seq![(ci as int, cr)] + Self::rest_pairs(r0));
                }
                let mut j: usize = 0;
                while j < self.rest.len()
                    invariant
                        self.current is None,
                        self.slots@ == n,
                        old(self).inv(),
                        old(self).slots@ == n,
                        old(self).pairs() == seq![(ci as int, cr)] + Self::rest_pairs(r0),
                        old(self).current is Some,
                        old(self).cur_idx() == ci as int,
                        old(self).cur_rem() == cr,
                        old(self).rest@ == r0,
                        (*cb).inv(),
                        (*cb).remaining() == cr,
                        cr.len() > 0,
                        kk == cr[0].0,
                        k_owned@ == kk,
                        self.rest@.len() == r0.len(),
                        0 <= j <= r0.len(),
                        forall|t: int| j <= t < r0.len() ==> #[trigger] self.rest@[t] == r0[t],
                        forall|t: int| 0 <= t < r0.len() ==> (#[trigger] self.rest@[t]).0 == r0[t].0,
                        forall|t: int| 0 <= t < r0.len() ==> (*(#[trigger] self.rest@[t]).1).inv(),
                        forall|t: int|
                            0 <= t < j ==> (*(#[trigger] self.rest@[t]).1).remaining()
                                == shadow_src((*r0[t].1).remaining(), kk),
                        forall|t: int|
                            0 <= t < r0.len() ==> source_le(
                                (ci as int, cr),
                                ((#[trigger] self.rest@[t]).0 as int, (*self.rest@[t].1).remaining()),
                            ),
                    decreases r0.len() - j,
                {
                    let ghost pre_rest = self.rest@;
                    let mut pair = self.rest.remove(j);
                    let ghost pre = (*pair.1).remaining();
                    proof {
                        assert(pair == r0[j as int]);
                    }
                    let heq = match pair.1.peek() {
                        Some((hk, _)) => bytes_eq(hk, k_owned.as_slice()),
                        None => false,
                    };
                    if heq {
                        proof {
                            (*pair.1).lemma_remaining_sorted();
                        }
                        match pair.1.next() {
                            Ok(()) => {
                                self.rest.insert(j, pair);
                                proof {
                                    assert(self.rest@ =~= pre_rest.update(
                                        j as int,
                                        self.rest@[j as int],
                                    ));
                                    assert((*self.rest@[j as int].1).remaining() == shadow_src(
                                        pre,
                                        kk,
                                    ));
                                    if (*self.rest@[j as int].1).remaining().len() > 0 {
                                        assert((*self.rest@[j as int].1).remaining()[0] == pre[1]);
                                        assert(lex_lt(pre[0].0, pre[1].0));
                                    }
                                }
                                j = j + 1;
                            },
                            Err(e) => {
                                // the failing shadowed source leaves the pool
                                // for good; the active source stays in place
                                self.current = Some((ci, cb));
                                proof {
                                    assert(self.rest@ == pre_rest.remove(j as int));
                                    assert forall|t: int|
                                        0 <= t < self.rest@.len() implies source_le(
                                        (ci as int, cr),
                                        (
                                            (#[trigger] self.rest@[t]).0 as int,
                                            (*self.rest@[t].1).remaining(),
                                        ),
                                    ) by {
                                        if t < j {
                                            assert(self.rest@[t] == pre_rest[t]);
                                        } else {
                                            assert(self.rest@[t] == pre_rest[t + 1]);
                                        }
                                    }
                                    assert forall|t: int|
                                        0 <= t < self.rest@.len() implies (*(
                                    #[trigger] self.rest@[t]).1).inv() by {
                                        if t < j {
                                            assert(self.rest@[t] == pre_rest[t]);
                                        } else {
                                            assert(self.rest@[t] == pre_rest[t + 1]);
                                        }
                                    }
                                    // the slot numbers, ci then those of the
                                    // surviving pool positions, stay distinct
                                    let fp = self.pairs();
                                    let op = old(self).pairs();
                                    assert(idx_bounded(op, n));
                                    assert(idx_distinct(op));
                                    assert forall|a: int| 0 <= a < fp.len() implies (
                                    #[trigger] fp[a]).0 == op[
                                        if a == 0 {
                                            0int
                                        } else if a - 1 < j {
                                            a
                                        } else {
                                            a + 1
                                        }
                                    ].0 by {
                                        if a == 0 {
                                            assert(fp[0].0 == ci as int);
                                            assert(op[0].0 == ci as int);
                                        } else {
                                            let t = a - 1;
                                            assert(fp[a].0 == self.rest@[t].0);
                                            if t < j {
                                                assert(self.rest@[t] == pre_rest[t]);
                                                assert(pre_rest[t].0 == r0[t].0);
                                                assert(op[t + 1].0 == r0[t].0);
                                            } else {
                                                assert(self.rest@[t] == pre_rest[t + 1]);
                                                assert(pre_rest[t + 1].0 == r0[t + 1].0);
                                                assert(op[t + 2].0 == r0[t + 1].0);
                                            }
                                        }
                                    }
                                    assert forall|a: int| 0 <= a < fp.len() implies 0 <= (
                                    #[trigger] fp[a]).0 < n by {
                                        let pa: int = if a == 0 {
                                            0int
                                        } else if a - 1 < j {
                                            a
                                        } else {
                                            a + 1
                                        };
                                        assert(0 <= op[pa].0 < n);
                                    }
                                    assert forall|a: int, b: int|
                                        0 <= a < b < fp.len() implies (#[trigger] fp[a]).0 != (
                                    #[trigger] fp[b]).0 by {
                                        let pa: int = if a == 0 {
                                            0int
                                        } else if a - 1 < j {
                                            a
                                        } else {
                                            a + 1
                                        };
                                        let pb: int = if b - 1 < j {
                                            b
                                        } else {
                                            b + 1
                                        };
                                        assert(fp[a].0 == op[pa].0);
                                        assert(fp[b].0 == op[pb].0);
                                        assert(pa < pb);
                                        assert(op[pa].0 != op[pb].0);
                                    }
                                    assert(self.inv());
                                    // the merge left behind is the old one
                                    // with the failing source's slot emptied
                                    let fi = pair.0 as int;
                                    let mold = old(self).model();
                                    let empty_src = Seq::<(Seq<u8>, Seq<u8>)>::empty();
                                    let mprime = mold.update(fi, empty_src);
                                    old(self).lemma_model();
                                    old(self).lemma_head();
                                    lemma_slots_of(op, n);
                                    assert(op[j + 1].0 == fi);
                                    assert(op[0].0 == ci as int);
                                    assert(fi != ci as int);
                                    assert(0 <= fi < n);
                                    self.lemma_model();
                                    self.lemma_head();
                                    lemma_slots_of(fp, n);
                                    let fm = self.model();
                                    assert(mprime[ci as int] == cr);
                                    assert forall|t: int|
                                        0 <= t < mprime.len() && t != ci as int implies source_le(
                                        (ci as int, cr),
                                        (t, #[trigger] mprime[t]),
                                    ) by {
                                        if t != fi {
                                            assert(mprime[t] == mold[t]);
                                        }
                                    }
                                    lemma_winner(mprime, ci as int);
                                    let dhf = drop_heads(fm, kk);
                                    let dhp = drop_heads(mprime, kk);
                                    assert forall|i: int| 0 <= i < n implies dhf[i] == dhp[i] by {
                                        if i == ci as int {
                                            assert(fm[i] == cr);
                                            assert(mprime[i] == cr);
                                        } else if i == fi {
                                            if has_slot(fp, i) {
                                                let a = choose|a: int|
                                                    0 <= a < fp.len() && (#[trigger] fp[a]).0
                                                        == i;
                                                let pa: int = if a == 0 {
                                                    0int
                                                } else if a - 1 < j {
                                                    a
                                                } else {
                                                    a + 1
                                                };
                                                assert(fp[a].0 == op[pa].0);
                                                assert(pa != j + 1);
                                                if pa < j + 1 {
                                                    assert(op[pa].0 != op[j + 1].0);
                                                } else {
                                                    assert(op[j + 1].0 != op[pa].0);
                                                }
                                            }
                                            assert(fm[i] == empty_src);
                                            assert(mprime[i] == empty_src);
                                        } else if has_slot(fp, i) {
                                            let a = choose|a: int|
                                                0 <= a < fp.len() && (#[trigger] fp[a]).0 == i;
                                            assert(a > 0);
                                            let t = a - 1;
                                            assert(fm[i] == fp[a].1);
                                            assert(fp[a].1 == (*self.rest@[t].1).remaining());
                                            if t < j {
                                                assert(self.rest@[t] == pre_rest[t]);
                                                assert((*pre_rest[t].1).remaining()
                                                    == shadow_src((*r0[t].1).remaining(), kk));
                                                assert(pre_rest[t].0 == r0[t].0);
                                                assert(op[t + 1] == (i, (
                                                *r0[t].1).remaining()));
                                                assert(mold[i] == (*r0[t].1).remaining());
                                                assert((*r0[t].1).inv());
                                                (*r0[t].1).lemma_remaining_sorted();
                                                lemma_shadow_src_idempotent(mold[i], kk);
                                                assert(mprime[i] == mold[i]);
                                            } else {
                                                assert(self.rest@[t] == pre_rest[t + 1]);
                                                assert(pre_rest[t + 1] == r0[t + 1]);
                                                assert(op[t + 2] == (i, (*r0[t
                                                    + 1].1).remaining()));
                                                assert(mold[i] == (*r0[t + 1].1).remaining());
                                                assert(fm[i] == mold[i]);
                                                assert(mprime[i] == mold[i]);
                                            }
                                        } else {
                                            if has_slot(op, i) {
                                                let a = choose|a: int|
                                                    0 <= a < op.len() && (#[trigger] op[a]).0
                                                        == i;
                                                assert(a > 0);
                                                assert(a != j + 1);
                                                let b = a - 1;
                                                if b < j {
                                                    assert(self.rest@[b] == pre_rest[b]);
                                                    assert(pre_rest[b].0 == r0[b].0);
                                                    assert(op[b + 1].0 == r0[b].0 as int);
                                                    assert(fp[b + 1].0 == i);
                                                    assert(has_slot(fp, i));
                                                } else {
                                                    assert(self.rest@[b - 1] == pre_rest[b]);
                                                    assert(pre_rest[b] == r0[b]);
                                                    assert(op[b + 1].0 == r0[b].0 as int);
                                                    assert(fp[b].0 == i);
                                                    assert(has_slot(fp, i));
                                                }
                                            }
                                            assert(fm[i] == empty_src);
                                            assert(mold[i] == empty_src);
                                            assert(mprime[i] == empty_src);
                                        }
                                    }
                                    assert(dhf =~= dhp);
                                    assert(self.remaining() == seq![cr[0]] + merge_spec(dhf));
                                    assert(merge_spec(mprime) == seq![cr[0]] + merge_spec(dhp));
                                    assert(self.remaining() == merge_spec(
                                        mold.update(fi, empty_src),
                                    ));
                                    assert(old(self).remaining().len() > 0);
                                    assert(self.remaining().len() > 0);
                                    assert(self.remaining()[0] == old(self).remaining()[0]);
                                }
                                return Err(e);
                            },
                        }
                    } else {
                        self.rest.insert(j, pair);
                        proof {
                            assert(self.rest@ =~= pre_rest);
                            assert((*self.rest@[j as int].1).remaining() == shadow_src(pre, kk));
                        }
                        j = j + 1;
                    }
                }
                // every shadowed head is gone; advance the active source
                let ghost arest = self.rest@;
                let ghost apool = Self::rest_pairs(arest);
                proof {
                    let op = old(self).pairs();
                    assert(idx_bounded(op, n));
                    assert(idx_distinct(op));
                    assert forall|t: int| 0 <= t < apool.len() implies (#[trigger] apool[t]).0
                        == op[t + 1].0 && 0 <= apool[t].0 < n by {
                        assert(apool[t].0 == self.rest@[t].0);
                        assert(self.rest@[t].0 == r0[t].0);
                        assert(op[t + 1].0 == r0[t].0);
                        assert(0 <= op[t + 1].0 < n);
                    }
                    assert(idx_bounded(apool, n));
                    assert forall|a: int, b: int| 0 <= a < b < apool.len() implies (
                    #[trigger] apool[a]).0 != (#[trigger] apool[b]).0 by {
                        assert(op[a + 1].0 != op[b + 1].0);
                    }
                }
                match cb.next() {
                    Err(e) => {
                        // the failing active source is dropped; the best of
                        // the pool takes its place
                        let ghost pre_pop = self.rest@;
                        let popped = Self::pop_min(&mut self.rest);
                        self.current = popped;
                        proof {
                            if self.current is Some {
                                let p = self.current->Some_0;
                                let q = choose|q: int|
                                    0 <= q < pre_pop.len() && pre_pop[q] == p && self.rest@
                                        == pre_pop.remove(q);
                                Self::lemma_popped_pairs(pre_pop, self.rest@, q);
                                assert(apool[q] == (p.0 as int, (*p.1).remaining()));
                                assert(self.pairs() =~= seq![apool[q]] + apool.remove(q));
                                lemma_reinsert_wf(apool, q, n);
                            } else {
                                assert(self.rest@.len() == 0);
                                assert(self.pairs() =~= Self::rest_pairs(self.rest@));
                            }
                            // the merge left behind: the shadowed heads and
                            // the surfaced entry are gone, and so is the
                            // failing active source's slot
                            old(self).lemma_model();
                            old(self).lemma_head();
                            let mold = old(self).model();
                            let empty_src = Seq::<(Seq<u8>, Seq<u8>)>::empty();
                            let op = old(self).pairs();
                            let t_target = drop_heads(mold, kk).update(ci as int, empty_src);
                            lemma_slots_of(op, n);
                            lemma_slots_of(apool, n);
                            assert forall|i: int| 0 <= i < n implies slots_of(apool, n)[i]
                                == t_target[i] by {
                                if i == ci as int {
                                    if has_slot(apool, i) {
                                        let a = choose|a: int|
                                            0 <= a < apool.len() && (#[trigger] apool[a]).0
                                                == i;
                                        assert(apool[a].0 == op[a + 1].0);
                                        assert(op[0].0 == ci as int);
                                        assert(op[0].0 != op[a + 1].0);
                                    }
                                    assert(slots_of(apool, n)[i] == empty_src);
                                    assert(t_target[i] == empty_src);
                                } else if has_slot(apool, i) {
                                    let a = choose|a: int|
                                        0 <= a < apool.len() && (#[trigger] apool[a]).0 == i;
                                    assert(slots_of(apool, n)[i] == apool[a].1);
                                    assert(apool[a].1 == (*arest[a].1).remaining());
                                    assert((*arest[a].1).remaining() == shadow_src(
                                        (*r0[a].1).remaining(),
                                        kk,
                                    ));
                                    assert(arest[a].0 == r0[a].0);
                                    assert(op[a + 1] == (i, (*r0[a].1).remaining()));
                                    assert(mold[i] == (*r0[a].1).remaining());
                                    assert(t_target[i] == shadow_src(mold[i], kk));
                                } else {
                                    if has_slot(op, i) {
                                        let a = choose|a: int|
                                            0 <= a < op.len() && (#[trigger] op[a]).0 == i;
                                        assert(a > 0);
                                        assert(apool[a - 1].0 == op[a].0);
                                        assert(has_slot(apool, i));
                                    }
                                    assert(mold[i] == empty_src);
                                    assert(slots_of(apool, n)[i] == empty_src);
                                    assert(t_target[i] == empty_src);
                                }
                            }
                            assert(slots_of(apool, n) =~= t_target);
                            if self.current is Some {
                                assert(self.model() == slots_of(apool, n));
                                assert(self.remaining() == merge_spec(t_target));
                            } else {
                                assert(apool.len() == 0);
                                assert forall|i: int| 0 <= i < t_target.len() implies (
                                #[trigger] t_target[i]).len() == 0 by {
                                    assert(t_target[i] == slots_of(apool, n)[i]);
                                }
                                lemma_merge_spec_empty(t_target);
                                assert(self.remaining() == merge_spec(t_target));
                            }
                            assert(kk == old(self).remaining()[0].0);
                            assert(old(self).remaining().len() > 0);
                            assert(self.remaining() == merge_spec(
                                drop_heads(mold, old(self).remaining()[0].0).update(
                                    ci as int,
                                    empty_src,
                                ),
                            ));
                            assert(mold.update(ci as int, empty_src) == mold.update(
                                ci as int,
                                empty_src,
                            ));
                        }
                        Err(e)
                    },
                    Ok(()) => {
                        self.rest.push((ci, cb));
                        let ghost cpairs = Self::rest_pairs(self.rest@);
                        proof {
                            assert(cpairs =~= apool.push((ci as int, cr.drop_first())));
                            let op = old(self).pairs();
                            assert forall|a: int, b: int|
                                0 <= a < b < cpairs.len() implies (#[trigger] cpairs[a]).0 != (
                            #[trigger] cpairs[b]).0 by {
                                if b == cpairs.len() - 1 {
                                    assert(cpairs[a].0 == op[a + 1].0);
                                    assert(cpairs[b].0 == op[0].0);
                                    assert(op[0].0 != op[a + 1].0);
                                } else {
                                    assert(cpairs[a].0 == op[a + 1].0);
                                    assert(cpairs[b].0 == op[b + 1].0);
                                    assert(op[a + 1].0 != op[b + 1].0);
                                }
                            }
                            assert(idx_bounded(cpairs, n));
                        }
                        let ghost pre_pop = self.rest@;
                        let popped = Self::pop_min(&mut self.rest);
                        self.current = popped;
                        proof {
                            assert(pre_pop.len() > 0);
                            let p = self.current->Some_0;
                            let q = choose|q: int|
                                0 <= q < pre_pop.len() && pre_pop[q] == p && self.rest@
                                    == pre_pop.remove(q);
                            Self::lemma_popped_pairs(pre_pop, self.rest@, q);
                            assert(cpairs[q] == (p.0 as int, (*p.1).remaining()));
                            assert(self.pairs() =~= seq![cpairs[q]] + cpairs.remove(q));
                            lemma_reinsert_wf(cpairs, q, n);
                            assert(self.inv());
                            assert(self.model() == slots_of(cpairs, n));
                            // the new positional view is the old one with
                            // every head carrying the surfaced key dropped
                            old(self).lemma_model();
                            let op = old(self).pairs();
                            let mold = old(self).model();
                            lemma_slots_of(op, n);
                            lemma_slots_of(cpairs, n);
                            assert forall|i: int| 0 <= i < n implies slots_of(cpairs, n)[i]
                                == drop_heads(mold, kk)[i] by {
                                if i == ci as int {
                                    let last = cpairs.len() - 1;
                                    assert(cpairs[last] == (ci as int, cr.drop_first()));
                                    assert(slots_of(cpairs, n)[i] == cr.drop_first());
                                    assert(op[0] == (ci as int, cr));
                                    assert(mold[i] == cr);
                                } else if has_slot(cpairs, i) {
                                    let a = choose|a: int|
                                        0 <= a < cpairs.len() && (#[trigger] cpairs[a]).0 == i;
                                    assert(a < cpairs.len() - 1);
                                    assert(slots_of(cpairs, n)[i] == cpairs[a].1);
                                    assert(cpairs[a].1 == shadow_src((*r0[a].1).remaining(), kk));
                                    assert(op[a + 1] == (i, (*r0[a].1).remaining()));
                                    assert(mold[i] == (*r0[a].1).remaining());
                                } else {
                                    if has_slot(op, i) {
                                        let a = choose|a: int|
                                            0 <= a < op.len() && (#[trigger] op[a]).0 == i;
                                        assert(a > 0);
                                        assert(cpairs[a - 1].0 == op[a].0);
                                        assert(has_slot(cpairs, i));
                                    }
                                    assert(slots_of(cpairs, n)[i] == Seq::<
                                        (Seq<u8>, Seq<u8>),
                                    >::empty());
                                    assert(mold[i] == Seq::<(Seq<u8>, Seq<u8>)>::empty());
                                }
                            }
                            assert(slots_of(cpairs, n) =~= drop_heads(mold, kk));
                            old(self).lemma_head();
                            assert(old(self).remaining() == seq![cr[0]] + merge_spec(
                                drop_heads(mold, kk),
                            ));
                            assert(old(self).remaining().drop_first() =~= merge_spec(
                                drop_heads(mold, kk),
                            ));
                            assert(self.remaining() == merge_spec(drop_heads(mold, kk)));
                        }
                        Ok(())
                    },
                }
            },
        }
    }
}

} // verus!
