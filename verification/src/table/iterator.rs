//! Walking over the entries of a table, block by block.

use super::{entries_from, landed, lemma_seek_in_table, lemma_seek_lands_in_table, SsTable};
use crate::block::{lower_bound, strictly_sorted, BlockBuilder, BlockIterator, Entry};
use crate::error::StorageError;
use crate::iterators::{counted, tail, StorageIterator};
use std::sync::Arc;
use vstd::prelude::*;

verus! {

/// Taking the first entry from a stream that has one leaves what follows it untouched.
pub proof fn lemma_tail_of_concat(a: Seq<Entry>, b: Seq<Entry>)
    requires
        a.len() > 0,
    ensures
        tail(a + b) == tail(a) + b,
{
    assert(tail(a + b) =~= tail(a) + b);
}

/// An iterator over the contents of a table, block by block.
pub struct SsTableIterator {
    table: Arc<SsTable>,
    blk_iter: BlockIterator,
    blk_idx: usize,
}

impl SsTableIterator {
    /// The table that is walked over.
    pub closed spec fn table(&self) -> SsTable {
        *self.table
    }

    /// Create a new iterator and seek to the first key-value pair in the
    /// first data block. Fails if the table has no block (an I/O error) or if
    /// its first block cannot be decoded (a format error).
    pub fn create_and_seek_to_first(table: Arc<SsTable>) -> (r: Result<Self, StorageError>)
        ensures
            match r {
                Ok(it) => {
                    &&& it.wf()
                    &&& it.table() == *table
                    &&& table.metas().len() > 0
                    &&& table.block_ok(0)
                    &&& it.rest() == table.entries_from(0)
                    &&& table.consistent() ==> strictly_sorted(it.rest())
                },
                Err(e) => if table.metas().len() == 0 {
                    e == StorageError::Io
                } else {
                    e == StorageError::Format && !table.block_ok(0)
                },
            },
    {
        match table.read_block_cached(0) {
            Ok(block) => {
                let blk_iter = BlockIterator::create_and_seek_to_first(block);
                let it = Self { blk_iter, blk_idx: 0, table };
                proof {
                    assert(it.blk_iter.rest() =~= it.blk_iter.entries());
                }
                Ok(it)
            },
            Err(e) => Err(e),
        }
    }

    /// Seek to the first key-value pair in the first data block. On an error
    /// the iterator stays where it was.
    pub fn seek_to_first(&mut self) -> (r: Result<(), StorageError>)
        requires
            old(self).wf(),
        ensures
            final(self).wf(),
            final(self).table() == old(self).table(),
            match r {
                Ok(_) => {
                    &&& final(self).table().metas().len() > 0
                    &&& final(self).table().block_ok(0)
                    &&& final(self).rest() == final(self).table().entries_from(0)
                    &&& final(self).table().consistent() ==> strictly_sorted(final(self).rest())
                },
                Err(e) => {
                    &&& *final(self) == *old(self)
                    &&& if old(self).table().metas().len() == 0 {
                        e == StorageError::Io
                    } else {
                        e == StorageError::Format && !old(self).table().block_ok(0)
                    }
                },
            },
    {
        match self.table.read_block_cached(0) {
            Ok(block) => {
                self.blk_iter = BlockIterator::create_and_seek_to_first(block);
                self.blk_idx = 0;
                proof {
                    assert(self.blk_iter.rest() =~= self.blk_iter.entries());
                }
                Ok(())
            },
            Err(e) => Err(e),
        }
    }

    /// Finds the block that may hold `key` and the place of `key` in it. If
    /// every key of that block is below `key`, the search goes on at the
    /// start of the next block. Behind the last block the iterator that comes
    /// back is invalid.
    fn find_block_with_key(table: &Arc<SsTable>, key: &[u8]) -> (r: Result<
        (BlockIterator, usize),
        StorageError,
    >)
        ensures
            table.wf(),
            match r {
                Ok((iter, idx)) => {
                    &&& iter.wf()
                    &&& iter.valid() ==> {
                        &&& idx < table.metas().len()
                        &&& table.block_ok(idx as int)
                        &&& iter.entries() == table.block_entries(idx as int)
                    }
                    &&& table.consistent() ==> (if iter.valid() {
                        iter.rest() + table.entries_from(idx + 1)
                    } else {
                        Seq::empty()
                    }) == table.entries_from(0).skip(lower_bound(table.entries_from(0), key@))
                    &&& table.described() ==> landed(
                        table.entries_from(0),
                        key@,
                        if iter.valid() {
                            iter.rest() + table.entries_from(idx + 1)
                        } else {
                            Seq::empty()
                        },
                    )
                },
                Err(e) => {
                    &&& e == StorageError::Format
                    &&& table.has_broken_block()
                    &&& !table.described()
                },
            },
    {
        let n: usize = table.num_of_blocks();
        let idx: usize = table.find_block_idx(key);
        if idx >= n {
            let none = BlockIterator::create_and_seek_to_first(Arc::new(BlockBuilder::new(0).build()));
            proof {
                if table.consistent() {
                    lemma_seek_in_table(
                        table.file_bytes(),
                        table.metas(),
                        table.data_end(),
                        key@,
                        idx as int,
                        false,
                        0,
                    );
                    let all = table.entries_from(0);
                    assert(all.skip(all.len() as int) =~= Seq::<Entry>::empty());
                }
                if table.described() {
                    lemma_seek_lands_in_table(
                        table.file_bytes(),
                        table.metas(),
                        table.data_end(),
                        key@,
                        idx as int,
                        false,
                        0,
                    );
                }
            }
            return Ok((none, n));
        }
        let block = match table.read_block_cached(idx) {
            Ok(b) => b,
            Err(e) => {
                assert(!table.block_ok(idx as int));
                assert(!super::block_described(
                    table.file_bytes(),
                    table.metas(),
                    table.data_end(),
                    idx as int,
                ));
                return Err(e);
            },
        };
        let iter = BlockIterator::create_and_seek_to_key(block, key);
        proof {
            if table.consistent() {
                lemma_seek_in_table(
                    table.file_bytes(),
                    table.metas(),
                    table.data_end(),
                    key@,
                    idx as int,
                    iter.valid(),
                    iter.position(),
                );
            }
            if table.described() {
                lemma_seek_lands_in_table(
                    table.file_bytes(),
                    table.metas(),
                    table.data_end(),
                    key@,
                    idx as int,
                    iter.valid(),
                    iter.position(),
                );
            }
        }
        if iter.is_valid() || idx + 1 >= n {
            return Ok((iter, idx));
        }
        match table.read_block_cached(idx + 1) {
            Ok(b) => Ok((BlockIterator::create_and_seek_to_first(b), idx + 1)),
            Err(e) => {
                assert(!table.block_ok(idx + 1));
                Err(e)
            },
        }
    }

    /// Create a new iterator and seek to the first key-value pair which >= `key`.
    pub fn create_and_seek_to_key(table: Arc<SsTable>, key: &[u8]) -> (r: Result<Self, StorageError>)
        ensures
            match r {
                Ok(it) => {
                    &&& it.wf()
                    &&& it.table() == *table
                    &&& table.consistent() ==> it.rest() == table.entries_from(0).skip(
                        lower_bound(table.entries_from(0), key@),
                    )
                    &&& table.described() ==> landed(table.entries_from(0), key@, it.rest())
                },
                Err(e) => {
                    &&& e == StorageError::Format
                    &&& table.has_broken_block()
                    &&& !table.described()
                },
            },
    {
        match Self::find_block_with_key(&table, key) {
            Ok((blk_iter, blk_idx)) => Ok(Self { blk_iter, blk_idx, table }),
            Err(e) => Err(e),
        }
    }

    /// Seek to the first key-value pair which >= `key`. On an error the
    /// iterator stays where it was.
    pub fn seek_to_key(&mut self, key: &[u8]) -> (r: Result<(), StorageError>)
        requires
            old(self).wf(),
        ensures
            final(self).wf(),
            final(self).table() == old(self).table(),
            match r {
                Ok(_) => {
                    &&& final(self).table().consistent() ==> final(self).rest()
                        == final(self).table().entries_from(0).skip(
                        lower_bound(final(self).table().entries_from(0), key@),
                    )
                    &&& final(self).table().described() ==> landed(
                        final(self).table().entries_from(0),
                        key@,
                        final(self).rest(),
                    )
                },
                Err(e) => {
                    &&& *final(self) == *old(self)
                    &&& e == StorageError::Format
                    &&& old(self).table().has_broken_block()
                    &&& !old(self).table().described()
                },
            },
    {
        match Self::find_block_with_key(&self.table, key) {
            Ok((blk_iter, blk_idx)) => {
                self.blk_iter = blk_iter;
                self.blk_idx = blk_idx;
                Ok(())
            },
            Err(e) => Err(e),
        }
    }
}

impl StorageIterator for SsTableIterator {
    /// The block iterator stands in the block that `blk_idx` names.
    closed spec fn wf(&self) -> bool {
        &&& self.table.wf()
        &&& self.blk_iter.wf()
        &&& self.blk_iter.valid() ==> {
            &&& self.blk_idx < self.table.metas().len()
            &&& self.table.block_ok(self.blk_idx as int)
            &&& self.blk_iter.entries() == self.table.block_entries(self.blk_idx as int)
        }
    }

    /// What is left of the current block, then the blocks behind it, as far
    /// as they can be decoded.
    closed spec fn rest(&self) -> Seq<Entry> {
        if self.blk_iter.valid() {
            self.blk_iter.rest() + self.table.entries_from(self.blk_idx + 1)
        } else {
            Seq::empty()
        }
    }

    /// A step fails only at a block that cannot be decoded.
    open spec fn sound(&self) -> bool {
        !self.table().has_broken_block()
    }

    /// Return the `value` that's held by the underlying block iterator.
    fn value(&self) -> (v: &[u8]) {
        proof {
            self.blk_iter.lemma_position_in_range();
        }
        self.blk_iter.value()
    }

    /// Return the `key` that's held by the underlying block iterator.
    fn key(&self) -> (k: &[u8]) {
        proof {
            self.blk_iter.lemma_position_in_range();
        }
        self.blk_iter.key()
    }

    /// Return whether the current block iterator is valid or not.
    fn is_valid(&self) -> (b: bool) {
        proof {
            if self.blk_iter.valid() {
                self.blk_iter.lemma_position_in_range();
            }
        }
        self.blk_iter.is_valid()
    }

    /// Move to the next entry: the next one of the block, or the first one of
    /// the next block. Fails with a format error if the next block cannot be
    /// decoded; the iterator is invalid from then on.
    fn next(&mut self) -> (r: Result<(), StorageError>)
        ensures
            final(self).table() == old(self).table(),
            old(self).rest().len() == 0 ==> r is Ok,
            r is Err ==> {
                &&& r == Err::<(), StorageError>(StorageError::Format)
                &&& final(self).rest().len() == 0
                &&& old(self).table().has_broken_block()
            },
    {
        if !self.blk_iter.is_valid() {
            return Ok(());
        }
        proof {
            self.blk_iter.lemma_position_in_range();
            lemma_tail_of_concat(self.blk_iter.rest(), self.table.entries_from(self.blk_idx + 1));
        }
        let count: usize = self.table.num_of_blocks();
        self.blk_iter.next();
        if !self.blk_iter.is_valid() {
            if self.blk_idx + 1 < count {
                match self.table.read_block_cached(self.blk_idx + 1) {
                    Ok(block) => {
                        self.blk_idx += 1;
                        self.blk_iter = BlockIterator::create_and_seek_to_first(block);
                        proof {
                            assert(self.blk_iter.rest() =~= self.blk_iter.entries());
                            assert(old(self).rest() =~= old(self).blk_iter.rest() + self.rest());
                        }
                    },
                    Err(e) => {
                        assert(!self.table.block_ok(self.blk_idx + 1));
                        return Err(e);
                    },
                }
            } else {
                proof {
                    assert(self.table.entries_from(self.blk_idx + 1) =~= Seq::<Entry>::empty());
                    assert(tail(old(self).blk_iter.rest()) + Seq::<Entry>::empty() =~= Seq::<Entry>::empty());
                }
            }
        }
        Ok(())
    }

    /// A table iterator draws from one source.
    fn num_active_iterators(&self) -> (n: usize)
        ensures
            n == 1,
    {
        assert(counted(self.sources()) == 1);
        1
    }

    /// The iterator draws from one table.
    open spec fn sources(&self) -> nat {
        1
    }

    /// A step fails with a format error, and only if the table has a block
    /// that cannot be decoded.
    open spec fn fails_with(&self, e: StorageError) -> bool {
        e == StorageError::Format && self.table().has_broken_block()
    }
}

} // verus!
