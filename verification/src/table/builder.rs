//! Writing a table: entries are collected into blocks, and the blocks, the
//! index and the Bloom filter are laid out as the file of the table.

use super::bloom::{is_filter_of, key_hash, key_hash_spec, Bloom};
use super::{
    block_bytes, block_described, block_entries, block_ok, blocks_described, entries_from,
    file_meta_bytes, file_meta_offset, lemma_append_block, lemma_block_end_bound, lemma_same_blocks,
    lemma_table_encoding_readable, meta_valid, meta_views, metas_encoding, metas_valid, parse_metas,
    ranges_ok, readable, table_encoding, BlockMeta, FileObject, MetaView, SsTable,
};
use crate::block::{entry_size, strictly_sorted, Block, BlockBuilder, Entry};
use crate::error::StorageError;
use crate::key::{valid_key, valid_value};
use crate::lsm_storage::BlockCache;
use crate::wire::{copy_range, put_slice, put_u32};
use std::sync::Arc;
use vstd::prelude::*;

verus! {

/// Number of filter bits that a table spends on each of its keys.
pub const BLOOM_BITS_PER_KEY: usize = 10;

/// Builds a table from entries that are added in the order of their keys.
pub struct SsTableBuilder {
    /// Collects the entries of the block that is being filled.
    builder: BlockBuilder,
    /// First key of the block that is being filled; empty while it has none.
    first_key: Vec<u8>,
    /// Last key of the block that is being filled; empty while it has none.
    last_key: Vec<u8>,
    /// The blocks that are full, encoded, one behind the other.
    data: Vec<u8>,
    /// One index entry for each block in `data`.
    pub(crate) meta: Vec<BlockMeta>,
    /// The size budget of each block.
    block_size: usize,
    /// The hash of every key added, in order.
    key_hashes: Vec<u32>,
}

impl SsTableBuilder {
    /// The builder of the block that is being filled.
    pub closed spec fn active(&self) -> BlockBuilder {
        self.builder
    }

    /// The encoded blocks that are full.
    pub closed spec fn written(&self) -> Seq<u8> {
        self.data@
    }

    /// The index entries of the blocks that are full.
    pub closed spec fn metas(&self) -> Seq<MetaView> {
        meta_views(self.meta@)
    }

    /// The size budget of each block.
    pub closed spec fn budget(&self) -> int {
        self.block_size as int
    }

    /// The hashes of the keys added so far.
    pub closed spec fn hashes(&self) -> Seq<u32> {
        self.key_hashes@
    }

    /// The entries of the blocks that are full.
    pub open spec fn flushed(&self) -> Seq<Entry> {
        entries_from(self.written(), self.metas(), self.written().len() as int, 0)
    }

    /// All entries added so far, in order.
    pub open spec fn entries(&self) -> Seq<Entry> {
        self.flushed() + self.active()@
    }

    /// The index entry that the block being filled gets when it is full.
    pub open spec fn active_meta(&self) -> MetaView {
        MetaView {
            offset: self.written().len() as int,
            first_key: self.active()@[0].0,
            last_key: self.active()@.last().0,
        }
    }

    /// The blocks of the table once the block being filled is written too.
    pub open spec fn sealed_blocks(&self) -> Seq<u8> {
        if self.active()@.len() > 0 {
            self.written() + self.active().encoding()
        } else {
            self.written()
        }
    }

    /// The index of the table once the block being filled is written too.
    pub open spec fn sealed_metas(&self) -> Seq<MetaView> {
        if self.active()@.len() > 0 {
            self.metas().push(self.active_meta())
        } else {
            self.metas()
        }
    }

    /// The full blocks lie one behind the other from offset 0, each can be
    /// decoded, the index names their first and last keys, and the builder
    /// remembers the first and last key of the block being filled and the
    /// hash of every key.
    pub closed spec fn wf(&self) -> bool {
        &&& self.builder.wf()
        &&& self.builder.budget() == self.block_size
        &&& self.builder@.len() == 0 ==> self.first_key@.len() == 0 && self.last_key@.len() == 0
        &&& self.builder@.len() > 0 ==> self.first_key@ == self.builder@[0].0 && self.last_key@
            == self.builder@.last().0
        &&& forall|i: int| 0 <= i < self.builder@.len() ==> valid_key(#[trigger] self.builder@[i].0)
        &&& self.meta@.len() == 0 ==> self.data@.len() == 0
        &&& self.meta@.len() > 0 ==> self.metas()[0].offset == 0
        &&& ranges_ok(self.metas(), self.data@.len() as int)
        &&& blocks_described(self.written(), self.metas(), self.written().len() as int)
        &&& forall|i: int|
            0 <= i < self.metas().len() ==> valid_key((#[trigger] self.metas()[i]).first_key) && valid_key(
                self.metas()[i].last_key,
            )
        &&& self.key_hashes@.len() == self.entries().len()
        &&& forall|i: int|
            0 <= i < self.key_hashes@.len() ==> #[trigger] self.key_hashes@[i] == key_hash_spec(
                self.entries()[i].0,
            )
    }

    /// Create a builder based on target block size.
    pub fn new(block_size: usize) -> (b: Self)
        ensures
            b.wf(),
            b.budget() == block_size,
            b.entries() == Seq::<Entry>::empty(),
            b.hashes() == Seq::<u32>::empty(),
            b.metas().len() == 0,
            b.written().len() == 0,
            b.active()@.len() == 0,
            b.active().data_len() == 0,
            b.active().budget() == block_size,
    {
        let b = Self {
            builder: BlockBuilder::new(block_size),
            first_key: Vec::new(),
            last_key: Vec::new(),
            data: Vec::new(),
            meta: Vec::new(),
            block_size,
            key_hashes: Vec::new(),
        };
        assert(b.flushed() =~= Seq::<Entry>::empty());
        assert(b.entries() =~= Seq::<Entry>::empty());
        b
    }

    /// Adds an entry to the table. It goes into the block that is being
    /// filled if that block takes it; otherwise that block is written out
    /// behind the others, and the entry starts the next block.
    pub fn add(&mut self, key: &[u8], value: &[u8])
        requires
            old(self).wf(),
            valid_key(key@),
            valid_value(value@),
        ensures
            final(self).wf(),
            final(self).budget() == old(self).budget(),
            final(self).entries() == old(self).entries().push((key@, value@)),
            final(self).hashes() == old(self).hashes().push(key_hash_spec(key@)),
            final(self).active().budget() == final(self).budget(),
            old(self).active().budget() == old(self).budget(),
            old(self).active().accepts(key@, value@) ==> {
                &&& final(self).written() == old(self).written()
                &&& final(self).metas() == old(self).metas()
                &&& final(self).active()@ == old(self).active()@.push((key@, value@))
                &&& final(self).active().data_len() == old(self).active().data_len() + entry_size(
                    old(self).active()@.len() == 0,
                    if old(self).active()@.len() == 0 {
                        key@
                    } else {
                        old(self).active()@[0].0
                    },
                    key@,
                    value@,
                )
            },
            !old(self).active().accepts(key@, value@) ==> {
                &&& final(self).written() == old(self).sealed_blocks()
                &&& final(self).metas() == old(self).sealed_metas()
                &&& final(self).active()@ == seq![(key@, value@)]
                &&& final(self).active().data_len() == entry_size(true, key@, key@, value@)
            },
    {
        let ghost before = self.entries();
        if !self.builder.add(key, value) {
            self.finish_block();
            let fits: bool = self.builder.add(key, value);
            assert(fits);
            assert(self.builder@ =~= seq![(key@, value@)]);
        }
        if self.first_key.is_empty() {
            put_slice(&mut self.first_key, key);
        }
        self.last_key = copy_range(key, 0, key.len());
        self.key_hashes.push(key_hash(key));
        proof {
            assert(self.last_key@ =~= key@);
            assert(self.entries() =~= before.push((key@, value@)));
            assert(self.first_key@ =~= self.builder@[0].0);
        }
    }

    /// Get the estimated size of the table: the size of the blocks written so far.
    pub fn estimated_size(&self) -> (n: usize)
        ensures
            n == self.written().len(),
    {
        self.data.len()
    }

    /// Writes the block that is being filled behind the others and starts an
    /// empty one.
    fn finish_block(&mut self)
        requires
            old(self).wf(),
            old(self).active()@.len() > 0,
        ensures
            final(self).wf(),
            final(self).budget() == old(self).budget(),
            final(self).active()@.len() == 0,
            final(self).active().data_len() == 0,
            final(self).active().budget() == final(self).budget(),
            final(self).entries() == old(self).entries(),
            final(self).hashes() == old(self).hashes(),
            final(self).written() == old(self).sealed_blocks(),
            final(self).metas() == old(self).sealed_metas(),
    {
        let ghost old_file = self.data@;
        let ghost old_metas = self.metas();
        let ghost old_entries = self.entries();
        let ghost m = self.active_meta();
        let mut builder = BlockBuilder::new(self.block_size);
        std::mem::swap(&mut builder, &mut self.builder);
        let ghost block_entries_now = builder@;
        let last_block: Block = builder.build();
        let encode_block: Vec<u8> = last_block.encode();
        let offset: usize = self.data.len();
        put_slice(&mut self.data, encode_block.as_slice());
        let mut first_key: Vec<u8> = Vec::new();
        std::mem::swap(&mut first_key, &mut self.first_key);
        let mut last_key: Vec<u8> = Vec::new();
        std::mem::swap(&mut last_key, &mut self.last_key);
        let meta = BlockMeta { offset, first_key, last_key };
        self.meta.push(meta);
        proof {
            let enc = encode_block@;
            let end = old_file.len() as int;
            assert(meta@ == m);
            assert(self.metas() =~= old_metas.push(m));
            assert(self.data@ == old_file + enc);
            assert forall|j: int| 0 <= j < old_metas.len() implies #[trigger] block_ok(
                old_file,
                old_metas,
                end,
                j,
            ) by {
                assert(block_described(old_file, old_metas, end, j));
            }
            lemma_append_block(old_file, old_metas, enc, m, 0);
            crate::block::lemma_encoding_decodable(last_block.raw_data(), last_block.raw_offsets());
            let end2 = self.data@.len() as int;
            assert forall|i: int| 0 <= i < self.metas().len() implies #[trigger] block_described(
                self.written(),
                self.metas(),
                end2,
                i,
            ) by {
                if i < old_metas.len() {
                    assert(block_described(old_file, old_metas, end, i));
                    assert(block_bytes(self.written(), self.metas(), end2, i) == block_bytes(
                        old_file,
                        old_metas,
                        end,
                        i,
                    ));
                } else {
                    assert(block_bytes(self.written(), self.metas(), end2, i) == enc);
                }
            }
            assert forall|i: int| 0 <= i < self.metas().len() implies valid_key(
                (#[trigger] self.metas()[i]).first_key,
            ) && valid_key(self.metas()[i].last_key) by {
                if i < old_metas.len() {
                    assert(self.metas()[i] == old_metas[i]);
                }
            }
            if old_metas.len() > 0 {
                assert(self.metas()[0] == old_metas[0]);
            }
            assert(self.flushed() == old(self).flushed() + block_entries_now);
            assert(self.entries() =~= old_entries);
        }
    }

    /// Builds the table: writes the block that is being filled, then the
    /// index, the offset of the index, a Bloom filter over the keys, and the
    /// offset of the filter. A table without entries is refused as a format
    /// error; one whose offsets do not fit 32 bits as too large.
    pub fn build(self, id: usize, block_cache: Option<Arc<BlockCache>>) -> (r: Result<
        SsTable,
        StorageError,
    >)
        requires
            self.wf(),
        ensures
            match r {
                Ok(t) => {
                    &&& t.wf()
                    &&& self.entries().len() > 0
                    &&& t.metas() == self.sealed_metas()
                    &&& t.data_end() == self.sealed_blocks().len()
                    &&& t.file_bytes() == table_encoding(
                        self.sealed_blocks(),
                        self.sealed_metas(),
                        t.bloom_encoding(),
                    )
                    &&& t.id_spec() == id
                    &&& t.cache() == block_cache
                    &&& t.file_at_hand()
                    &&& t.file_len() == t.file_bytes().len()
                    &&& t.max_ts_spec() == u64::MAX
                    &&& t.first_key_spec() == self.entries()[0].0
                    &&& t.last_key_spec() == self.entries().last().0
                    &&& is_filter_of(t.bloom_encoding(), self.hashes(), BLOOM_BITS_PER_KEY as int)
                    &&& t.described()
                    &&& t.entries_from(0) == self.entries()
                    &&& strictly_sorted(self.entries()) ==> t.consistent()
                    &&& readable(t.file_bytes())
                    &&& parse_metas(file_meta_bytes(t.file_bytes()), 0) == Some(t.metas())
                    &&& file_meta_offset(t.file_bytes()) == t.data_end()
                    &&& forall|i: int|
                        0 <= i < self.entries().len() ==> t.lets_through(
                            key_hash_spec(#[trigger] self.entries()[i].0),
                        )
                },
                Err(e) => if self.entries().len() == 0 {
                    e == StorageError::Format
                } else {
                    &&& e == StorageError::TooLarge
                    &&& self.sealed_blocks().len() + metas_encoding(self.sealed_metas()).len() + 4
                        > u32::MAX
                },
            },
    {
        let mut this = self;
        this.seal();
        this.write(id, block_cache)
    }

    /// Writes the block that is being filled, if it holds an entry.
    fn seal(&mut self)
        requires
            old(self).wf(),
        ensures
            final(self).wf(),
            final(self).active()@.len() == 0,
            final(self).entries() == old(self).entries(),
            final(self).hashes() == old(self).hashes(),
            final(self).written() == old(self).sealed_blocks(),
            final(self).metas() == old(self).sealed_metas(),
    {
        if !self.builder.is_empty() {
            self.finish_block();
        }
    }

    /// Writes the table of a builder whose blocks are all full.
    fn write(self, id: usize, block_cache: Option<Arc<BlockCache>>) -> (r: Result<SsTable, StorageError>)
        requires
            self.wf(),
            self.active()@.len() == 0,
        ensures
            match r {
                Ok(t) => {
                    &&& t.wf()
                    &&& self.entries().len() > 0
                    &&& t.metas() == self.metas()
                    &&& t.data_end() == self.written().len()
                    &&& t.file_bytes() == table_encoding(self.written(), self.metas(), t.bloom_encoding())
                    &&& t.id_spec() == id
                    &&& t.cache() == block_cache
                    &&& t.file_at_hand()
                    &&& t.file_len() == t.file_bytes().len()
                    &&& t.max_ts_spec() == u64::MAX
                    &&& t.first_key_spec() == self.entries()[0].0
                    &&& t.last_key_spec() == self.entries().last().0
                    &&& is_filter_of(t.bloom_encoding(), self.hashes(), BLOOM_BITS_PER_KEY as int)
                    &&& t.described()
                    &&& t.entries_from(0) == self.entries()
                    &&& strictly_sorted(self.entries()) ==> t.consistent()
                    &&& readable(t.file_bytes())
                    &&& parse_metas(file_meta_bytes(t.file_bytes()), 0) == Some(t.metas())
                    &&& file_meta_offset(t.file_bytes()) == t.data_end()
                    &&& forall|i: int|
                        0 <= i < self.entries().len() ==> t.lets_through(
                            key_hash_spec(#[trigger] self.entries()[i].0),
                        )
                },
                Err(e) => if self.entries().len() == 0 {
                    e == StorageError::Format
                } else {
                    &&& e == StorageError::TooLarge
                    &&& self.written().len() + metas_encoding(self.metas()).len() + 4 > u32::MAX
                },
            },
    {
        proof {
            assert(self.entries() =~= self.flushed());
        }
        if self.meta.len() == 0 {
            proof {
                assert(self.flushed() =~= Seq::<Entry>::empty());
            }
            return Err(StorageError::Format);
        }
        proof {
            self.lemma_flushed_nonempty();
            self.lemma_first_and_last();
        }
        let bloom: Bloom = Bloom::build_from_keys(self.key_hashes.as_slice(), BLOOM_BITS_PER_KEY);
        proof {
            assert forall|i: int| 0 <= i < self.entries().len() implies bloom.lets_through(
                key_hash_spec(#[trigger] self.entries()[i].0),
            ) by {
                assert(bloom.lets_through(self.key_hashes@[i]));
            }
        }
        let ghost blocks = self.data@;
        let ghost metas = self.metas();
        let offset: usize = self.data.len();
        proof {
            if offset <= u32::MAX {
                self.lemma_metas_valid();
            }
        }
        let buf: Vec<u8> = match lay_out(self.data, self.meta.as_slice(), &bloom) {
            Some(buf) => buf,
            None => {
                return Err(StorageError::TooLarge);
            },
        };
        let first: &BlockMeta = &self.meta[0];
        let first_key: Vec<u8> = copy_range(first.first_key.as_slice(), 0, first.first_key.len());
        let last: &BlockMeta = &self.meta[self.meta.len() - 1];
        let last_key: Vec<u8> = copy_range(last.last_key.as_slice(), 0, last.last_key.len());
        proof {
            assert(first_key@ =~= self.meta@[0].first_key@);
            assert(last_key@ =~= self.meta@[self.meta@.len() - 1].last_key@);
            lemma_table_encoding_readable(blocks, metas, bloom.encoding());
            lemma_same_blocks(buf@, blocks, metas, offset as int);
        }
        let file: FileObject = FileObject::create(buf);
        Ok(
            SsTable::assemble(
                file,
                self.meta,
                offset,
                id,
                block_cache,
                first_key,
                last_key,
                bloom,
                u64::MAX,
            ),
        )
    }

    /// The first key of the first block and the last key of the last block
    /// are the first and the last key of the entries in the full blocks.
    proof fn lemma_first_and_last(&self)
        requires
            self.wf(),
            self.metas().len() > 0,
        ensures
            self.flushed().len() > 0,
            self.flushed()[0].0 == self.metas()[0].first_key,
            self.flushed().last().0 == self.metas()[self.metas().len() - 1].last_key,
    {
        let file = self.written();
        let metas = self.metas();
        let end = file.len() as int;
        let n = metas.len() as int;
        let all = self.flushed();
        assert(block_described(file, metas, end, 0));
        assert(block_described(file, metas, end, n - 1));
        super::lemma_entries_suffix(file, metas, end, n - 1);
        let tail_part = entries_from(file, metas, end, n - 1);
        let last_block = block_entries(file, metas, end, n - 1);
        assert(entries_from(file, metas, end, n) =~= Seq::<Entry>::empty());
        assert(tail_part =~= last_block);
        let off = all.len() - tail_part.len();
        assert(all.skip(off)[tail_part.len() - 1] == all[all.len() - 1]);
        assert(all[0] == block_entries(file, metas, end, 0)[0]);
    }

    /// While the blocks written fit 32 bits, the index can be written.
    proof fn lemma_metas_valid(&self)
        requires
            self.wf(),
            self.written().len() <= u32::MAX,
        ensures
            metas_valid(self.metas()),
    {
        assert forall|i: int| 0 <= i < self.metas().len() implies meta_valid(#[trigger] self.metas()[i]) by {
            lemma_block_end_bound(self.metas(), self.written().len() as int, i);
        }
    }

    /// A builder that has written a block holds entries in its full blocks.
    proof fn lemma_flushed_nonempty(&self)
        requires
            self.wf(),
            self.metas().len() > 0,
        ensures
            self.flushed().len() > 0,
    {
        assert(block_described(self.written(), self.metas(), self.written().len() as int, 0));
    }
}

/// Lays out the file of a table: the blocks, the index, the offset of the
/// index, the Bloom filter, the offset of the filter. Nothing comes back if
/// the offsets do not fit 32 bits.
fn lay_out(blocks: Vec<u8>, metas: &[BlockMeta], bloom: &Bloom) -> (r: Option<Vec<u8>>)
    requires
        blocks@.len() <= u32::MAX ==> metas_valid(meta_views(metas@)),
    ensures
        match r {
            Some(buf) => {
                &&& buf@ == table_encoding(blocks@, meta_views(metas@), bloom.encoding())
                &&& blocks@.len() + metas_encoding(meta_views(metas@)).len() + 4 <= u32::MAX
            },
            None => blocks@.len() + metas_encoding(meta_views(metas@)).len() + 4 > u32::MAX,
        },
{
    let offset: usize = blocks.len();
    if offset > u32::MAX as usize {
        return None;
    }
    let mut buf: Vec<u8> = blocks;
    BlockMeta::encode_block_meta(metas, &mut buf);
    if buf.len() > u32::MAX as usize - 4 {
        return None;
    }
    put_u32(&mut buf, offset as u32);
    let bloom_offset: usize = buf.len();
    bloom.encode(&mut buf);
    put_u32(&mut buf, bloom_offset as u32);
    assert(buf@ =~= table_encoding(blocks@, meta_views(metas@), bloom.encoding()));
    Some(buf)
}

} // verus!
