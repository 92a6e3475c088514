//! The capability every sorted source offers: peek at the current entry
//! without consuming it, and advance one position. A source is exhausted
//! once `peek` returns `None`; advancing an exhausted source is a safe
//! no-op. Failures of `next` are propagated, never swallowed.

use vstd::prelude::*;

use crate::errors::Error;
use crate::order::lex_lt;

verus! {

/// Keys are strictly ascending: each entry's key is byte-wise smaller than
/// every later entry's key. This is the order every source maintains.
pub open spec fn entries_strictly_sorted(s: Seq<(Seq<u8>, Seq<u8>)>) -> bool {
    forall|i: int, j: int| 0 <= i < j < s.len() ==> lex_lt(s[i].0, s[j].0)
}

/// A sorted, peekable, advanceable source of key/value entries.
///
/// `remaining()` is the mathematical content of the source: the entries it
/// has not yet yielded, in order. `peek` shows the head of that sequence;
/// a successful `next` drops it. Every implementation keeps the keys of
/// `remaining()` strictly ascending, so a merge of sources surfaces each
/// distinct key at most once.
pub trait StorageIterator: Sized {
    /// The source's internal invariant.
    spec fn inv(&self) -> bool;

    /// The entries not yet yielded, in order.
    spec fn remaining(&self) -> Seq<(Seq<u8>, Seq<u8>)>;

    /// Law: the keys of the remaining entries are strictly ascending.
    proof fn lemma_remaining_sorted(&self)
        requires
            self.inv(),
        ensures
            entries_strictly_sorted(self.remaining()),
    ;

    /// The current entry, without consuming it; `None` once exhausted.
    fn peek(&self) -> (r: Option<(&[u8], &[u8])>)
        requires
            self.inv(),
        ensures
            r is Some <==> self.remaining().len() > 0,
            r matches Some(kv) ==> kv.0@ == self.remaining()[0].0 && kv.1@
                == self.remaining()[0].1,
    ;

    /// Advance one position. On success the head entry is consumed; on an
    /// exhausted source this is a no-op. A failure is reported to the
    /// caller; the source's invariant still holds afterwards.
    fn next(&mut self) -> (r: Result<(), Error>)
        requires
            old(self).inv(),
        ensures
            final(self).inv(),
            r is Ok && old(self).remaining().len() > 0 ==> final(self).remaining() == old(
                self,
            ).remaining().drop_first(),
            r is Ok && old(self).remaining().len() == 0 ==> final(self).remaining() == old(
                self,
            ).remaining(),
    ;
}

} // verus!
