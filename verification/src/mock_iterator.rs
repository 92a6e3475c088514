//! An in-memory source over a fixed, sorted list of entries, with an
//! optional injected failure. It is the simplest implementation of the
//! source capability, and the way to exercise how a merge treats a source
//! whose advance fails.

use vstd::prelude::*;

use crate::errors::Error;
use crate::iterators::{entries_strictly_sorted, StorageIterator};

verus! {

/// The entry list as mathematical sequences.
pub open spec fn entry_views(v: Seq<(Vec<u8>, Vec<u8>)>) -> Seq<(Seq<u8>, Seq<u8>)> {
    Seq::new(v.len(), |i: int| (v[i].0@, v[i].1@))
}

/// A source that yields a fixed list of entries, sorted strictly by key.
/// When built with a failure position, `next` fails — without advancing —
/// whenever the cursor stands there, as a real source might fail on a bad
/// page; `peek` is unaffected.
pub struct MockIterator {
    /// The entries, strictly sorted by key.
    entries: Vec<(Vec<u8>, Vec<u8>)>,
    /// The cursor: entries before it have been consumed.
    pos: usize,
    /// Where `next` is made to fail, if anywhere.
    fail_at: Option<usize>,
}

impl MockIterator {
    /// The cursor position.
    pub closed spec fn position(&self) -> int {
        self.pos as int
    }

    /// The whole entry list.
    pub closed spec fn all_entries(&self) -> Seq<(Seq<u8>, Seq<u8>)> {
        entry_views(self.entries@)
    }

    /// Where `next` is made to fail, if anywhere.
    pub closed spec fn failure_point(&self) -> Option<int> {
        match self.fail_at {
            Some(f) => Some(f as int),
            None => None,
        }
    }

    /// A source over `entries` that never fails.
    pub fn new(entries: Vec<(Vec<u8>, Vec<u8>)>) -> (r: MockIterator)
        requires
            entries_strictly_sorted(entry_views(entries@)),
        ensures
            r.inv(),
            r.remaining() == entry_views(entries@),
            r.all_entries() == entry_views(entries@),
            r.position() == 0,
            r.failure_point() is None,
    {
        let r = MockIterator { entries, pos: 0, fail_at: None };
        proof {
            assert(r.remaining() =~= r.all_entries());
        }
        r
    }

    /// A source over `entries` whose `next` fails once the cursor stands at
    /// `fail_at`.
    pub fn new_failing(entries: Vec<(Vec<u8>, Vec<u8>)>, fail_at: usize) -> (r: MockIterator)
        requires
            entries_strictly_sorted(entry_views(entries@)),
        ensures
            r.inv(),
            r.remaining() == entry_views(entries@),
            r.all_entries() == entry_views(entries@),
            r.position() == 0,
            r.failure_point() == Some(fail_at as int),
    {
        let r = MockIterator { entries, pos: 0, fail_at: Some(fail_at) };
        proof {
            assert(r.remaining() =~= r.all_entries());
        }
        r
    }
}

impl StorageIterator for MockIterator {
    closed spec fn inv(&self) -> bool {
        &&& entries_strictly_sorted(self.all_entries())
        &&& self.pos <= self.entries@.len()
    }

    closed spec fn remaining(&self) -> Seq<(Seq<u8>, Seq<u8>)> {
        self.all_entries().skip(self.pos as int)
    }

    proof fn lemma_remaining_sorted(&self) {
        let all = self.all_entries();
        let pos = self.pos as int;
        assert forall|i: int, j: int|
            0 <= i < j < self.remaining().len() implies crate::order::lex_lt(
            self.remaining()[i].0,
            self.remaining()[j].0,
        ) by {
            assert(self.remaining()[i] == all[pos + i]);
            assert(self.remaining()[j] == all[pos + j]);
        }
    }

    /// The entry under the cursor, or `None` once all are consumed.
    fn peek(&self) -> (r: Option<(&[u8], &[u8])>) {
        if self.pos < self.entries.len() {
            let e = vstd::slice::slice_index_get(self.entries.as_slice(), self.pos);
            proof {
                assert(self.remaining()[0] == self.all_entries()[self.pos as int]);
            }
            Some((e.0.as_slice(), e.1.as_slice()))
        } else {
            None
        }
    }

    /// Consumes the entry under the cursor; a no-op once exhausted. Fails,
    /// leaving the source untouched, exactly when the cursor stands at the
    /// injected failure position.
    fn next(&mut self) -> (r: Result<(), Error>)
        ensures
            r is Err <==> old(self).failure_point() == Some(old(self).position()),
            r is Err ==> *final(self) == *old(self) && r->Err_0 is SourceFailure,
    {
        if let Some(f) = self.fail_at {
            if f == self.pos {
                return Err(Error::SourceFailure);
            }
        }
        if self.pos < self.entries.len() {
            self.pos = self.pos + 1;
            proof {
                assert(self.remaining() =~= old(self).remaining().drop_first());
            }
        }
        Ok(())
    }
}

} // verus!
