//! A cursor over one block: seek to the first entry or to the first entry
//! whose key is at least a target, peek at the current entry, and advance.
//! The block is shared read-only; any number of iterators may read it.

use std::sync::Arc;

use vstd::prelude::*;

use crate::block::{entry_key, entry_val, val_len_at, val_start_at, valid_entry, Block};
use crate::errors::Error;
use crate::iterators::StorageIterator;
use crate::order::{bytes_lt, lex_lt};

verus! {

/// Iterates over the entries of one `Block`.
///
/// The cursor index ranges over `[0, num_entries]`; at `num_entries` the
/// iterator is exhausted. The cached current entry (key bytes and value
/// range) is consistent with the index after every public operation.
pub struct BlockIterator {
    /// The block being read, shared read-only.
    block: Arc<Block>,
    /// The current entry: its key and the value's byte range in the block's
    /// data region; `None` when exhausted. The value is exposed as a view
    /// into the block's buffer, never copied.
    current: Option<(Vec<u8>, (usize, usize))>,
    /// The current entry index.
    idx: usize,
}

impl BlockIterator {
    /// The block this iterator reads.
    pub closed spec fn blk(&self) -> Block {
        *self.block
    }

    /// The current entry index.
    pub closed spec fn pos(&self) -> int {
        self.idx as int
    }

    /// The block is well formed and the index is in range; holds whether or
    /// not the cached entry has been refreshed for the index yet.
    pub closed spec fn core_wf(&self) -> bool {
        &&& (*self.block).wf()
        &&& self.idx <= (*self.block).num_entries()
    }

    fn new(block: Arc<Block>) -> (r: BlockIterator)
        requires
            (*block).wf(),
        ensures
            r.core_wf(),
            r.blk() == *block,
            r.pos() == 0,
    {
        BlockIterator { block, current: None, idx: 0 }
    }

    /// Creates an iterator positioned on the block's first entry; it is
    /// immediately exhausted when the block holds no entries.
    pub fn create_and_seek_to_first(block: Arc<Block>) -> (r: BlockIterator)
        requires
            (*block).wf(),
        ensures
            r.inv(),
            r.core_wf(),
            r.blk() == *block,
            r.pos() == 0,
            r.remaining() == (*block).entries(),
    {
        let mut iter = Self::new(block);
        iter.seek_to_first();
        proof {
            assert(iter.remaining() =~= iter.blk().entries());
        }
        iter
    }

    /// Creates an iterator positioned on the first entry whose key is at
    /// least `key`; it is exhausted when no such entry exists.
    pub fn create_and_seek_to_key(block: Arc<Block>, key: &[u8]) -> (r: BlockIterator)
        requires
            (*block).wf(),
        ensures
            r.inv(),
            r.core_wf(),
            r.blk() == *block,
            0 <= r.pos() <= (*block).num_entries(),
            forall|j: int| 0 <= j < r.pos() ==> lex_lt((*block).entries()[j].0, key@),
            r.pos() < (*block).num_entries() ==> !lex_lt((*block).entries()[r.pos()].0, key@),
            r.remaining() == (*block).entries().skip(r.pos()),
    {
        let mut iter = Self::new(block);
        iter.seek_to_key(key);
        iter
    }

    /// Seeks to the first entry of the block.
    pub fn seek_to_first(&mut self)
        requires
            old(self).core_wf(),
        ensures
            final(self).inv(),
            final(self).core_wf(),
            final(self).blk() == old(self).blk(),
            final(self).pos() == 0,
            final(self).remaining() == final(self).blk().entries(),
    {
        self.idx = 0;
        self.update_current();
        proof {
            assert(self.remaining() =~= self.blk().entries());
        }
    }

    /// Seeks to the first entry whose key is at least `key`, under byte-wise
    /// comparison; the iterator becomes exhausted when every key in the
    /// block is smaller.
    pub fn seek_to_key(&mut self, key: &[u8])
        requires
            old(self).core_wf(),
        ensures
            final(self).inv(),
            final(self).core_wf(),
            final(self).blk() == old(self).blk(),
            0 <= final(self).pos() <= final(self).blk().num_entries(),
            forall|j: int|
                0 <= j < final(self).pos() ==> lex_lt(final(self).blk().entries()[j].0, key@),
            final(self).pos() < final(self).blk().num_entries() ==> !lex_lt(
                final(self).blk().entries()[final(self).pos()].0,
                key@,
            ),
            final(self).remaining() == final(self).blk().entries().skip(final(self).pos()),
    {
        let ghost blk = self.blk();
        let n = self.block.offsets.len();
        let mut i: usize = 0;
        let mut found = false;
        while i < n && !found
            invariant
                blk == *self.block,
                blk.wf(),
                n == blk.num_entries(),
                0 <= i <= n,
                forall|j: int| 0 <= j < i ==> lex_lt(blk.entries()[j].0, key@),
                found ==> i < n && !lex_lt(blk.entries()[i as int].0, key@),
                self.idx <= n,
            decreases n - i + (if found { 0int } else { 1int }),
        {
            let off = self.block.offsets[i];
            let (k_bytes, _) = Self::parse_entry(self.block.data.as_slice(), off as usize);
            proof {
                assert(k_bytes@ == blk.entries()[i as int].0);
            }
            if !bytes_lt(k_bytes, key) {
                found = true;
            } else {
                i = i + 1;
            }
        }
        if found {
            self.idx = i;
        } else {
            self.idx = n;
        }
        self.update_current();
        proof {
            assert(self.remaining() =~= self.blk().entries().skip(self.pos()));
        }
    }

    /// Refreshes the cached current entry from the index.
    fn update_current(&mut self)
        requires
            old(self).core_wf(),
        ensures
            final(self).inv(),
            final(self).blk() == old(self).blk(),
            final(self).pos() == old(self).pos(),
    {
        if self.idx < self.block.offsets.len() {
            let off = self.block.offsets[self.idx];
            let (k_bytes, v_range) = Self::parse_entry(self.block.data.as_slice(), off as usize);
            let key = vstd::slice::slice_to_vec(k_bytes);
            self.current = Some((key, v_range));
        } else {
            self.current = None;
        }
    }

    /// Reads one entry of the data region: the key length, the key bytes,
    /// the value length, and the value's byte range (the value itself is
    /// not copied).
    fn parse_entry(data: &[u8], offset: usize) -> (r: (&[u8], (usize, usize)))
        requires
            valid_entry(data@, offset as int),
        ensures
            r.0@ == entry_key(data@, offset as int),
            r.1.0 == val_start_at(data@, offset as int),
            r.1.1 == val_start_at(data@, offset as int) + val_len_at(data@, offset as int),
    {
        let dlen: usize = data.len();
        proof {
            assert(data@.len() == dlen);
        }
        let b0 = *vstd::slice::slice_index_get(data, offset);
        let b1 = *vstd::slice::slice_index_get(data, offset + 1);
        let key_len: usize = (b0 as usize) + 256 * (b1 as usize);
        let key = vstd::slice::slice_subrange(data, offset + 2, offset + 2 + key_len);
        let v0 = *vstd::slice::slice_index_get(data, offset + 2 + key_len);
        let v1 = *vstd::slice::slice_index_get(data, offset + 2 + key_len + 1);
        let value_len: usize = (v0 as usize) + 256 * (v1 as usize);
        let value_start = offset + 4 + key_len;
        (key, (value_start, value_start + value_len))
    }
}

impl StorageIterator for BlockIterator {
    closed spec fn inv(&self) -> bool {
        &&& self.core_wf()
        &&& match self.current {
            Some((k, (s, e))) => {
                &&& self.idx < (*self.block).num_entries()
                &&& k@ == (*self.block).entries()[self.idx as int].0
                &&& s == val_start_at(
                    (*self.block).data@,
                    (*self.block).offsets@[self.idx as int] as int,
                )
                &&& e == s + val_len_at(
                    (*self.block).data@,
                    (*self.block).offsets@[self.idx as int] as int,
                )
            },
            None => self.idx == (*self.block).num_entries(),
        }
    }

    closed spec fn remaining(&self) -> Seq<(Seq<u8>, Seq<u8>)> {
        (*self.block).entries().skip(self.idx as int)
    }

    proof fn lemma_remaining_sorted(&self) {
        let entries = (*self.block).entries();
        let idx = self.idx as int;
        assert forall|i: int, j: int|
            0 <= i < j < self.remaining().len() implies lex_lt(
            self.remaining()[i].0,
            self.remaining()[j].0,
        ) by {
            assert(self.remaining()[i] == entries[idx + i]);
            assert(self.remaining()[j] == entries[idx + j]);
        }
    }

    /// The current key and a view of the current value in the block's data
    /// region; `None` once exhausted. Never moves the cursor.
    fn peek(&self) -> (r: Option<(&[u8], &[u8])>) {
        match &self.current {
            Some((key, (start, end))) => {
                let value = vstd::slice::slice_subrange(
                    self.block.data.as_slice(),
                    *start,
                    *end,
                );
                proof {
                    assert(value@ == self.remaining()[0].1);
                    assert(key@ == self.remaining()[0].0);
                }
                Some((key.as_slice(), value))
            },
            None => None,
        }
    }

    /// Advances the cursor by one; a no-op once exhausted. Always succeeds:
    /// no entry of a well-formed block can fail to parse.
    fn next(&mut self) -> (r: Result<(), Error>)
        ensures
            r is Ok,
            final(self).core_wf(),
            final(self).blk() == old(self).blk(),
            old(self).pos() < old(self).blk().num_entries() ==> final(self).pos() == old(
                self,
            ).pos() + 1,
            old(self).pos() == old(self).blk().num_entries() ==> final(self).pos() == old(
                self,
            ).pos(),
    {
        if self.idx < self.block.offsets.len() {
            self.idx = self.idx + 1;
            self.update_current();
            proof {
                assert(self.remaining() =~= old(self).remaining().drop_first());
            }
        }
        Ok(())
    }
}

} // verus!
