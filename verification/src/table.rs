//! A sorted-string table: blocks one behind the other, the index that tells
//! where each block starts and which keys it spans, and a Bloom filter over
//! the keys.

pub mod bloom;
mod builder;
mod file;
mod iterator;
mod layout;
mod meta;

pub use builder::{BLOOM_BITS_PER_KEY, SsTableBuilder};
pub use file::FileObject;
pub use iterator::{lemma_tail_of_concat, SsTableIterator};
pub use layout::{
    block_bytes, block_described, block_end, block_entries, block_ok, blocks_described, covers,
    entries_from, file_bloom_bytes, file_bloom_offset, file_meta_bytes, file_meta_offset, landed,
    landed_at, lemma_append_block, lemma_block_end_bound, lemma_consistent_index,
    lemma_entries_suffix, lemma_found_block, lemma_metas_ascend, lemma_same_blocks,
    lemma_seek_in_table, lemma_seek_lands_in_table, lemma_table_encoding_readable,
    lemma_table_round_trip, metas_in_order, ranges_ok, readable, table_consistent, table_encoding,
    trailer_ok,
};
pub use meta::{
    lemma_metas_encoding_len, lemma_parse_encoding, lemma_parse_is_encoding, meta_at, meta_encoding,
    meta_first_len, meta_fits, meta_last_len, meta_size, meta_valid, meta_views, metas_encoding,
    metas_size, metas_valid, parse_metas, BlockMeta, MetaView,
};

use self::bloom::Bloom;
use crate::block::{lemma_encoding_decodable, Block, Entry};
use crate::error::StorageError;
use crate::key::{key_le, key_less, key_lt, lemma_key_le_not_lt};
use crate::lsm_storage::BlockCache;
use crate::wire::{copy_range, read_u32};
use std::sync::Arc;
use vstd::prelude::*;

verus! {

/// `moka::sync::Cache::try_get_with`: what the cache holds under the table's
/// id and the block's index, or else what reading the block gives, which the
/// cache then keeps. What comes back is what some reader once put there under
/// this key, so nothing is stated of it; the caller holds it against the file.
#[verifier::external_body]
fn cache_try_get_with(cache: &BlockCache, table: &SsTable, sst_id: u64, block_idx: u32) -> (r: Result<
    Arc<Block>,
    StorageError,
>) {
    cache.try_get_with((sst_id, block_idx), || table.read_block(block_idx as usize)).map_err(|e| *e)
}

/// A sorted-string table.
pub struct SsTable {
    /// The bytes of the table.
    pub(crate) file: FileObject,
    /// One index entry for each block.
    pub(crate) block_meta: Vec<BlockMeta>,
    /// Where the blocks end and the index starts in `file`.
    pub(crate) block_meta_offset: usize,
    id: usize,
    block_cache: Option<Arc<BlockCache>>,
    first_key: Vec<u8>,
    last_key: Vec<u8>,
    pub(crate) bloom: Option<Bloom>,
    /// The greatest timestamp stored in this table; kept and not looked at.
    max_ts: u64,
}

impl SsTable {
    /// Every table is well formed.
    #[verifier::type_invariant]
    spec fn inv(self) -> bool {
        self.wf()
    }

    /// The bytes of the table's file; none for a table that is known by its
    /// keys only.
    pub closed spec fn file_bytes(&self) -> Seq<u8> {
        match self.file.contents() {
            Some(bytes) => bytes,
            None => Seq::empty(),
        }
    }

    /// The index: one entry for each block.
    pub closed spec fn metas(&self) -> Seq<MetaView> {
        meta_views(self.block_meta@)
    }

    /// Where the blocks end in the file.
    pub closed spec fn data_end(&self) -> int {
        self.block_meta_offset as int
    }

    /// The id of the table.
    pub closed spec fn id_spec(&self) -> usize {
        self.id
    }

    /// The size of the table's file.
    pub closed spec fn file_len(&self) -> int {
        self.file.len()
    }

    /// Whether the contents of the table's file are at hand.
    pub closed spec fn file_at_hand(&self) -> bool {
        self.file.contents() is Some
    }

    /// The block cache that the table reads through, if it has one.
    pub closed spec fn cache(&self) -> Option<Arc<BlockCache>> {
        self.block_cache
    }

    /// The greatest timestamp that the table was made with.
    pub closed spec fn max_ts_spec(&self) -> u64 {
        self.max_ts
    }

    /// The first key of the table.
    pub closed spec fn first_key_spec(&self) -> Seq<u8> {
        self.first_key@
    }

    /// The last key of the table.
    pub closed spec fn last_key_spec(&self) -> Seq<u8> {
        self.last_key@
    }

    /// The blocks lie inside the file, each ending after it starts, and the
    /// table's first and last key are those of its index. Every table that
    /// the library hands out is well formed.
    pub closed spec fn wf(&self) -> bool {
        &&& self.file.wf()
        &&& self.block_meta_offset <= self.file_bytes().len()
        &&& ranges_ok(self.metas(), self.data_end())
        &&& metas_valid(self.metas())
        &&& self.metas().len() > 0 ==> {
            &&& self.first_key@ == self.metas()[0].first_key
            &&& self.last_key@ == self.metas()[self.metas().len() - 1].last_key
        }
    }

    /// The bytes of block `i`.
    pub open spec fn block_bytes(&self, i: int) -> Seq<u8> {
        block_bytes(self.file_bytes(), self.metas(), self.data_end(), i)
    }

    /// Whether block `i` can be decoded.
    pub open spec fn block_ok(&self, i: int) -> bool {
        block_ok(self.file_bytes(), self.metas(), self.data_end(), i)
    }

    /// The entries of block `i`.
    pub open spec fn block_entries(&self, i: int) -> Seq<Entry> {
        block_entries(self.file_bytes(), self.metas(), self.data_end(), i)
    }

    /// The entries of block `i` and of the blocks behind it, as far as the
    /// blocks can be decoded.
    pub open spec fn entries_from(&self, i: int) -> Seq<Entry> {
        entries_from(self.file_bytes(), self.metas(), self.data_end(), i)
    }

    /// What `wf` says, spelled out for those that hold a well-formed table.
    pub proof fn lemma_wf(&self)
        requires
            self.wf(),
        ensures
            ranges_ok(self.metas(), self.data_end()),
            metas_valid(self.metas()),
            self.data_end() <= self.file_bytes().len(),
            self.file_at_hand() ==> self.file_len() == self.file_bytes().len(),
            !self.file_at_hand() ==> self.file_bytes().len() == 0 && self.metas().len() == 0,
            self.metas().len() > 0 ==> self.first_key_spec() == self.metas()[0].first_key,
            self.metas().len() > 0 ==> self.last_key_spec() == self.metas()[self.metas().len() - 1].last_key,
    {
    }

    /// Every block can be decoded, and the index names its first and last key.
    pub open spec fn described(&self) -> bool {
        blocks_described(self.file_bytes(), self.metas(), self.data_end())
    }

    /// The table is in order: every block can be decoded, the index names
    /// the first and last key of every block, and the keys of all entries go
    /// up strictly. A table built from entries added in the order of their
    /// keys is in order.
    pub open spec fn consistent(&self) -> bool {
        table_consistent(self.file_bytes(), self.metas(), self.data_end())
    }

    /// Whether one of the table's blocks cannot be decoded.
    pub open spec fn has_broken_block(&self) -> bool {
        exists|i: int| 0 <= i < self.metas().len() && !#[trigger] self.block_ok(i)
    }

    /// The table's Bloom filter as it is written; nothing for a table without one.
    pub closed spec fn bloom_encoding(&self) -> Seq<u8> {
        match self.bloom {
            Some(b) => b.encoding(),
            None => Seq::empty(),
        }
    }

    /// Whether the table's Bloom filter lets the hash `h` through; a table
    /// without a filter lets every hash through.
    pub closed spec fn lets_through(&self, h: u32) -> bool {
        match self.bloom {
            Some(b) => b.lets_through(h),
            None => true,
        }
    }

    /// Puts a table together from its parts.
    pub(crate) fn assemble(
        file: FileObject,
        block_meta: Vec<BlockMeta>,
        block_meta_offset: usize,
        id: usize,
        block_cache: Option<Arc<BlockCache>>,
        first_key: Vec<u8>,
        last_key: Vec<u8>,
        bloom: Bloom,
        max_ts: u64,
    ) -> (t: SsTable)
        requires
            file.wf(),
            file.contents() is Some,
            block_meta_offset <= file.contents()->0.len(),
            ranges_ok(meta_views(block_meta@), block_meta_offset as int),
            metas_valid(meta_views(block_meta@)),
            block_meta@.len() > 0,
            first_key@ == block_meta@[0].first_key@,
            last_key@ == block_meta@[block_meta@.len() - 1].last_key@,
        ensures
            t.wf(),
            t.file_bytes() == file.contents()->0,
            t.metas() == meta_views(block_meta@),
            t.data_end() == block_meta_offset,
            t.bloom_encoding() == bloom.encoding(),
            forall|h: u32| t.lets_through(h) == bloom.lets_through(h),
            t.id_spec() == id,
            t.max_ts_spec() == max_ts,
            t.first_key_spec() == first_key@,
            t.last_key_spec() == last_key@,
            t.file_len() == file.len(),
            t.file_at_hand(),
            t.cache() == block_cache,
    {
        Self {
            file,
            block_meta,
            block_meta_offset,
            id,
            block_cache,
            first_key,
            last_key,
            bloom: Some(bloom),
            max_ts,
        }
    }

    /// Opens a table from the bytes of its file: reads the offset of the
    /// Bloom filter from the end, the filter, the offset of the index before
    /// the filter, and the index.
    pub fn open(id: usize, block_cache: Option<Arc<BlockCache>>, file: FileObject) -> (r: Result<
        SsTable,
        StorageError,
    >)
        ensures
            match r {
                Ok(t) => {
                    &&& file.contents() is Some
                    &&& readable(file.contents()->0)
                    &&& t.wf()
                    &&& t.file_bytes() == file.contents()->0
                    &&& t.metas() == parse_metas(file_meta_bytes(t.file_bytes()), 0)->0
                    &&& t.data_end() == file_meta_offset(t.file_bytes())
                    &&& t.bloom_encoding() == file_bloom_bytes(t.file_bytes())
                    &&& t.id_spec() == id
                    &&& t.cache() == block_cache
                    &&& t.file_at_hand()
                    &&& t.file_len() == file.len()
                    &&& t.file_len() == t.file_bytes().len()
                    &&& t.max_ts_spec() == 0
                    &&& t.first_key_spec() == t.metas()[0].first_key
                    &&& t.last_key_spec() == t.metas()[t.metas().len() - 1].last_key
                },
                Err(e) => if file.contents() is None {
                    e == StorageError::Io
                } else {
                    e == StorageError::Format && !readable(file.contents()->0)
                },
            },
    {
        let data: &[u8] = match file.bytes() {
            Some(d) => d,
            None => {
                return Err(StorageError::Io);
            },
        };
        let size: usize = data.len();
        if size < 8 {
            return Err(StorageError::Format);
        }
        let bloom_offset: usize = read_u32(data, size - 4) as usize;
        if bloom_offset < 4 || bloom_offset > size - 4 {
            return Err(StorageError::Format);
        }
        let bloom: Bloom = match Bloom::decode(vstd::slice::slice_subrange(data, bloom_offset, size - 4)) {
            Ok(b) => b,
            Err(_) => {
                return Err(StorageError::Format);
            },
        };
        let block_meta_offset: usize = read_u32(data, bloom_offset - 4) as usize;
        if block_meta_offset > bloom_offset - 4 {
            return Err(StorageError::Format);
        }
        let block_meta: Vec<BlockMeta> = match BlockMeta::decode_block_meta(
            vstd::slice::slice_subrange(data, block_meta_offset, bloom_offset - 4),
        ) {
            Ok(m) => m,
            Err(_) => {
                return Err(StorageError::Format);
            },
        };
        proof {
            lemma_parse_is_encoding(file_meta_bytes(data@), 0);
        }
        if block_meta.len() == 0 || block_meta[0].offset != 0 || !check_ranges(
            &block_meta,
            block_meta_offset,
        ) {
            return Err(StorageError::Format);
        }
        let first_key: Vec<u8> = copy_range(
            block_meta[0].first_key.as_slice(),
            0,
            block_meta[0].first_key.len(),
        );
        let last: &BlockMeta = &block_meta[block_meta.len() - 1];
        let last_key: Vec<u8> = copy_range(last.last_key.as_slice(), 0, last.last_key.len());
        proof {
            assert(first_key@ =~= block_meta@[0].first_key@);
            assert(last_key@ =~= block_meta@[block_meta@.len() - 1].last_key@);
        }
        Ok(
            Self {
                file,
                block_meta,
                block_meta_offset,
                id,
                block_cache,
                first_key,
                last_key,
                bloom: Some(bloom),
                max_ts: 0,
            },
        )
    }

    /// A table of which only the id, the size of its file and its first and
    /// last key are known: it has no blocks.
    pub fn create_meta_only(id: usize, file_size: u64, first_key: Vec<u8>, last_key: Vec<u8>) -> (t:
        Self)
        ensures
            t.wf(),
            t.metas().len() == 0,
            t.first_key_spec() == first_key@,
            t.last_key_spec() == last_key@,
            t.id_spec() == id,
            t.cache() is None,
            !t.file_at_hand(),
            t.file_len() == file_size,
            t.max_ts_spec() == 0,
            forall|h: u32| t.lets_through(h),
    {
        let t = Self {
            file: FileObject::without_contents(file_size),
            block_meta: Vec::new(),
            block_meta_offset: 0,
            id,
            block_cache: None,
            first_key,
            last_key,
            bloom: None,
            max_ts: 0,
        };
        t
    }

    /// Reads block `block_idx` from the file and decodes it. An index behind
    /// the last block is an I/O error, bytes that are no block a format error.
    pub fn read_block(&self, block_idx: usize) -> (r: Result<Arc<Block>, StorageError>)
        ensures
            self.wf(),
            match r {
                Ok(b) => {
                    &&& block_idx < self.metas().len()
                    &&& self.block_ok(block_idx as int)
                    &&& b.wf()
                    &&& b.encoding() == self.block_bytes(block_idx as int)
                    &&& b@ == self.block_entries(block_idx as int)
                    &&& b@.len() >= 1
                },
                Err(e) => if block_idx < self.metas().len() {
                    e == StorageError::Format && !self.block_ok(block_idx as int)
                } else {
                    e == StorageError::Io
                },
            },
    {
        proof {
            use_type_invariant(self);
        }
        if block_idx >= self.block_meta.len() {
            return Err(StorageError::Io);
        }
        let (begin_offset, end_offset) = self.block_range(block_idx);
        let data: Vec<u8> = match self.file.read(
            begin_offset as u64,
            (end_offset - begin_offset) as u64,
        ) {
            Ok(d) => d,
            Err(e) => {
                return Err(e);
            },
        };
        assert(data@ == self.block_bytes(block_idx as int));
        match Block::decode(data.as_slice()) {
            Ok(b) => Ok(Arc::new(b)),
            Err(e) => Err(e),
        }
    }

    /// Where block `block_idx` starts and ends in the file.
    fn block_range(&self, block_idx: usize) -> (r: (usize, usize))
        requires
            self.wf(),
            block_idx < self.metas().len(),
        ensures
            r.0 == self.metas()[block_idx as int].offset,
            r.1 == block_end(self.metas(), self.data_end(), block_idx as int),
            r.0 < r.1 <= self.data_end() <= self.file_bytes().len(),
    {
        assert(self.metas().len() == self.block_meta@.len());
        let count: usize = self.block_meta.len();
        let begin_offset: usize = self.block_meta[block_idx].offset;
        let end_offset: usize = if block_idx + 1 < count {
            self.block_meta[block_idx + 1].offset
        } else {
            self.block_meta_offset
        };
        proof {
            assert(self.metas()[block_idx as int] == self.block_meta@[block_idx as int]@);
            assert(0 <= self.metas()[block_idx as int].offset < block_end(
                self.metas(),
                self.data_end(),
                block_idx as int,
            ));
            self.lemma_ranges_ascend(block_idx as int);
        }
        (begin_offset, end_offset)
    }

    /// The end of every block lies within the blocks' part of the file.
    proof fn lemma_ranges_ascend(&self, i: int)
        requires
            self.wf(),
            0 <= i < self.metas().len(),
        ensures
            block_end(self.metas(), self.data_end(), i) <= self.data_end(),
        decreases self.metas().len() - i,
    {
        if i + 1 < self.metas().len() {
            assert(0 <= self.metas()[i + 1].offset < block_end(self.metas(), self.data_end(), i + 1));
            self.lemma_ranges_ascend(i + 1);
        }
    }

    /// Whether `block` is block `block_idx` of this table, byte for byte:
    /// whether the table has such a block, and `block` holds an entry and is
    /// written as the bytes that the file holds for that block.
    fn holds_block(&self, block_idx: usize, block: &Block) -> (r: bool)
        ensures
            r <==> {
                &&& block_idx < self.metas().len()
                &&& block@.len() >= 1
                &&& block.encoding() == self.block_bytes(block_idx as int)
            },
            r ==> {
                &&& block_idx < self.metas().len()
                &&& self.block_ok(block_idx as int)
                &&& block.wf()
                &&& block.encoding() == self.block_bytes(block_idx as int)
                &&& block@ == self.block_entries(block_idx as int)
                &&& block@.len() >= 1
            },
    {
        proof {
            use_type_invariant(self);
        }
        if block_idx >= self.block_meta.len() || block.num_entries() == 0 {
            return false;
        }
        let (begin_offset, end_offset) = self.block_range(block_idx);
        let data: &[u8] = match self.file.bytes() {
            Some(d) => vstd::slice::slice_subrange(d, begin_offset, end_offset),
            None => {
                return false;
            },
        };
        let encoded: Vec<u8> = block.encode();
        let same: bool = same_bytes(encoded.as_slice(), data);
        proof {
            if same {
                lemma_encoding_decodable(block.raw_data(), block.raw_offsets());
            }
        }
        same
    }

    /// Reads block `block_idx` as `read_block` does, by way of the block
    /// cache where the table has one. A block from the cache is taken only if
    /// it is the block of this table, byte for byte; the file is read otherwise.
    pub fn read_block_cached(&self, block_idx: usize) -> (r: Result<Arc<Block>, StorageError>)
        ensures
            self.wf(),
            match r {
                Ok(b) => {
                    &&& block_idx < self.metas().len()
                    &&& self.block_ok(block_idx as int)
                    &&& b.wf()
                    &&& b.encoding() == self.block_bytes(block_idx as int)
                    &&& b@ == self.block_entries(block_idx as int)
                    &&& b@.len() >= 1
                },
                Err(e) => if block_idx < self.metas().len() {
                    e == StorageError::Format && !self.block_ok(block_idx as int)
                } else {
                    e == StorageError::Io
                },
            },
    {
        proof {
            use_type_invariant(self);
        }
        if let Some(ref block_cache) = self.block_cache {
            if block_idx <= u32::MAX as usize {
                if let Ok(blk) = cache_try_get_with(block_cache, self, self.id as u64, block_idx as u32) {
                    if self.holds_block(block_idx, &blk) {
                        return Ok(blk);
                    }
                }
            }
        }
        self.read_block(block_idx)
    }

    /// Finds the block that may hold `key` by binary search over the last
    /// keys of the index: a block whose last key is not below `key`, and that
    /// is the first block or follows one whose last key is below `key`. If
    /// every last key is below `key`, the number of blocks comes back.
    pub fn find_block_idx(&self, key: &[u8]) -> (idx: usize)
        ensures
            self.wf(),
            idx <= self.metas().len(),
            idx < self.metas().len() ==> key_le(key@, self.metas()[idx as int].last_key),
            idx > 0 ==> key_lt(self.metas()[idx - 1].last_key, key@),
    {
        proof {
            use_type_invariant(self);
        }
        let mut begin: usize = 0;
        let mut end: usize = self.block_meta.len();
        while begin < end
            invariant
                0 <= begin <= end <= self.block_meta@.len(),
                begin > 0 ==> key_lt(self.metas()[begin - 1].last_key, key@),
                end < self.metas().len() ==> key_le(key@, self.metas()[end as int].last_key),
            decreases end - begin,
        {
            let mid: usize = begin + (end - begin) / 2;
            assert(self.metas()[mid as int] == self.block_meta@[mid as int]@);
            if key_less(self.block_meta[mid].last_key.as_slice(), key) {
                begin = mid + 1;
            } else {
                proof {
                    lemma_key_le_not_lt(key@, self.metas()[mid as int].last_key);
                }
                end = mid;
            }
        }
        begin
    }

    /// Get number of data blocks.
    pub fn num_of_blocks(&self) -> (n: usize)
        ensures
            self.wf(),
            n == self.metas().len(),
    {
        proof {
            use_type_invariant(self);
        }
        self.block_meta.len()
    }

    /// The first key of the table.
    pub fn first_key(&self) -> (k: &Vec<u8>)
        ensures
            k@ == self.first_key_spec(),
    {
        &self.first_key
    }

    /// The last key of the table.
    pub fn last_key(&self) -> (k: &Vec<u8>)
        ensures
            k@ == self.last_key_spec(),
    {
        &self.last_key
    }

    /// Reads `len` bytes of the table's file from `offset` on. A read beyond
    /// the end of the file, or from a table whose file is not at hand, is an
    /// I/O error.
    pub fn read_file(&self, offset: u64, len: u64) -> (r: Result<Vec<u8>, StorageError>)
        ensures
            self.wf(),
            match r {
                Ok(bytes) => {
                    &&& self.file_at_hand()
                    &&& offset + len <= self.file_len()
                    &&& self.file_len() == self.file_bytes().len()
                    &&& bytes@ == self.file_bytes().subrange(offset as int, offset + len)
                },
                Err(e) => e == StorageError::Io && (!self.file_at_hand() || offset + len > self.file_len()),
            },
    {
        proof {
            use_type_invariant(self);
        }
        self.file.read(offset, len)
    }

    /// The size of the table's file in bytes.
    pub fn table_size(&self) -> (n: u64)
        ensures
            n == self.file_len(),
    {
        self.file.size()
    }

    /// The id that the table was opened or built with.
    pub fn sst_id(&self) -> (id: usize)
        ensures
            id == self.id_spec(),
    {
        self.id
    }

    /// The greatest timestamp stored in the table.
    pub fn max_ts(&self) -> (ts: u64)
        ensures
            ts == self.max_ts_spec(),
    {
        self.max_ts
    }

    /// Whether the table's Bloom filter lets the key through; a table without
    /// a filter lets every key through. `false` means that the table was not
    /// built with this key.
    pub fn may_contain_key(&self, key: &[u8]) -> (r: bool)
        ensures
            r == self.lets_through(self::bloom::key_hash_spec(key@)),
    {
        match &self.bloom {
            Some(b) => b.may_contain(self::bloom::key_hash(key)),
            None => true,
        }
    }
}

/// Whether two byte strings are the same.
fn same_bytes(a: &[u8], b: &[u8]) -> (r: bool)
    ensures
        r == (a@ == b@),
{
    crate::key::key_equal(a, b)
}

/// Tests that every block ends after it starts, the last one no later than `end`.
fn check_ranges(metas: &Vec<BlockMeta>, end: usize) -> (ok: bool)
    ensures
        ok == ranges_ok(meta_views(metas@), end as int),
{
    let n: usize = metas.len();
    let mut i: usize = 0;
    while i < n
        invariant
            n == metas@.len(),
            0 <= i <= n,
            forall|j: int|
                0 <= j < i ==> 0 <= (#[trigger] meta_views(metas@)[j]).offset < block_end(
                    meta_views(metas@),
                    end as int,
                    j,
                ),
        decreases n - i,
    {
        let next: usize = if i + 1 < n {
            metas[i + 1].offset
        } else {
            end
        };
        if metas[i].offset >= next {
            assert(!(meta_views(metas@)[i as int].offset < block_end(meta_views(metas@), end as int, i as int)));
            return false;
        }
        i = i + 1;
    }
    true
}

} // verus!
