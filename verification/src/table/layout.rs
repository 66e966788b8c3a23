//! How a table lies in its file: where the blocks are, what they hold, what
//! the trailer says, and what follows from a table being in order.

use super::meta::{lemma_parse_encoding, metas_encoding, metas_valid, parse_metas, MetaView};
use crate::block::{
    decodable, encoded_data, encoded_offsets, entries_of, lemma_lower_bound_is,
    lemma_seek_finds_least, lemma_seek_lands_on_lower_bound, lower_bound, seek_landing,
    strictly_sorted, Entry,
};
use crate::key::{
    key_le, key_lt, lemma_key_le_not_lt, lemma_key_le_transitive, lemma_key_lt_transitive,
    lemma_key_trichotomy,
};
use crate::wire::{be32_at, be32_bytes, lemma_be32_round_trip};
use vstd::prelude::*;

verus! {

/// Where block `i` ends: where the next block starts, or at `end` for the last block.
pub open spec fn block_end(metas: Seq<MetaView>, end: int, i: int) -> int {
    if i + 1 < metas.len() {
        metas[i + 1].offset
    } else {
        end
    }
}

/// Every block starts inside the file and before the place where it ends.
pub open spec fn ranges_ok(metas: Seq<MetaView>, end: int) -> bool {
    forall|i: int| 0 <= i < metas.len() ==> 0 <= (#[trigger] metas[i]).offset < block_end(metas, end, i)
}

/// The bytes of block `i`.
pub open spec fn block_bytes(file: Seq<u8>, metas: Seq<MetaView>, end: int, i: int) -> Seq<u8> {
    file.subrange(metas[i].offset, block_end(metas, end, i))
}

/// Whether the bytes of block `i` are an encoded block.
pub open spec fn block_ok(file: Seq<u8>, metas: Seq<MetaView>, end: int, i: int) -> bool {
    decodable(block_bytes(file, metas, end, i))
}

/// The entries of block `i`.
pub open spec fn block_entries(file: Seq<u8>, metas: Seq<MetaView>, end: int, i: int) -> Seq<Entry> {
    entries_of(
        encoded_data(block_bytes(file, metas, end, i)),
        encoded_offsets(block_bytes(file, metas, end, i)),
    )
}

/// The entries of block `i` and of the blocks behind it, as far as the
/// blocks can be decoded.
pub open spec fn entries_from(file: Seq<u8>, metas: Seq<MetaView>, end: int, i: int) -> Seq<Entry>
    decreases metas.len() - i,
{
    if 0 <= i < metas.len() && block_ok(file, metas, end, i) {
        block_entries(file, metas, end, i) + entries_from(file, metas, end, i + 1)
    } else {
        Seq::empty()
    }
}

/// Block `i` can be decoded, and its index entry names its first and last key.
pub open spec fn block_described(file: Seq<u8>, metas: Seq<MetaView>, end: int, i: int) -> bool {
    &&& block_ok(file, metas, end, i)
    &&& metas[i].first_key == block_entries(file, metas, end, i)[0].0
    &&& metas[i].last_key == block_entries(file, metas, end, i).last().0
}

/// Every block can be decoded, and the index names its first and last key.
pub open spec fn blocks_described(file: Seq<u8>, metas: Seq<MetaView>, end: int) -> bool {
    forall|i: int| 0 <= i < metas.len() ==> #[trigger] block_described(file, metas, end, i)
}

/// No block ends behind `end`.
pub proof fn lemma_block_end_bound(metas: Seq<MetaView>, end: int, i: int)
    requires
        ranges_ok(metas, end),
        0 <= i < metas.len(),
    ensures
        0 <= metas[i].offset < block_end(metas, end, i) <= end,
    decreases metas.len() - i,
{
    assert(0 <= metas[i].offset < block_end(metas, end, i));
    if i + 1 < metas.len() {
        lemma_block_end_bound(metas, end, i + 1);
    }
}

/// Writing one more block behind the others, with its index entry, leaves
/// the other blocks as they are and adds the entries of the new block at the end.
pub proof fn lemma_append_block(file: Seq<u8>, metas: Seq<MetaView>, enc: Seq<u8>, m: MetaView, i: int)
    requires
        ranges_ok(metas, file.len() as int),
        m.offset == file.len(),
        decodable(enc),
        0 <= i <= metas.len(),
        forall|j: int| i <= j < metas.len() ==> #[trigger] block_ok(file, metas, file.len() as int, j),
    ensures
        ranges_ok(metas.push(m), (file + enc).len() as int),
        forall|j: int|
            0 <= j < metas.len() ==> #[trigger] block_bytes(file + enc, metas.push(m), (file + enc).len() as int, j)
                == block_bytes(file, metas, file.len() as int, j),
        block_bytes(file + enc, metas.push(m), (file + enc).len() as int, metas.len() as int) == enc,
        entries_from(file + enc, metas.push(m), (file + enc).len() as int, i) == entries_from(
            file,
            metas,
            file.len() as int,
            i,
        ) + entries_of(encoded_data(enc), encoded_offsets(enc)),
    decreases metas.len() - i,
{
    let file2 = file + enc;
    let metas2 = metas.push(m);
    let end = file.len() as int;
    let end2 = file2.len() as int;
    let n = metas.len() as int;
    assert forall|j: int| 0 <= j < metas2.len() implies 0 <= (#[trigger] metas2[j]).offset < block_end(
        metas2,
        end2,
        j,
    ) by {
        if j < n {
            assert(0 <= metas[j].offset < block_end(metas, end, j));
        }
    }
    assert forall|j: int| 0 <= j < n implies #[trigger] block_bytes(file2, metas2, end2, j) == block_bytes(
        file,
        metas,
        end,
        j,
    ) by {
        lemma_block_end_bound(metas, end, j);
        assert(block_end(metas2, end2, j) == block_end(metas, end, j));
        assert(block_bytes(file2, metas2, end2, j) =~= block_bytes(file, metas, end, j));
    }
    assert(block_bytes(file2, metas2, end2, n) =~= enc);
    if i < n {
        lemma_append_block(file, metas, enc, m, i + 1);
        assert(block_ok(file, metas, end, i));
        assert(block_bytes(file2, metas2, end2, i) == block_bytes(file, metas, end, i));
        assert(entries_from(file2, metas2, end2, i) =~= entries_from(file, metas, end, i) + entries_of(
            encoded_data(enc),
            encoded_offsets(enc),
        ));
    } else {
        assert(entries_from(file2, metas2, end2, n + 1) =~= Seq::<Entry>::empty());
        assert(entries_from(file, metas, end, n) =~= Seq::<Entry>::empty());
        assert(entries_from(file2, metas2, end2, n) =~= entries_of(
            encoded_data(enc),
            encoded_offsets(enc),
        ));
        assert(Seq::<Entry>::empty() + entries_of(encoded_data(enc), encoded_offsets(enc)) =~= entries_of(
            encoded_data(enc),
            encoded_offsets(enc),
        ));
    }
}

/// The index is in order: in every block the first key is not above the
/// last, and the last key of a block is below the first key of the next.
pub open spec fn metas_in_order(metas: Seq<MetaView>) -> bool {
    forall|i: int|
        0 <= i < metas.len() ==> key_le((#[trigger] metas[i]).first_key, metas[i].last_key) && (i + 1
            < metas.len() ==> key_lt(metas[i].last_key, metas[i + 1].first_key))
}

/// Whether `key` lies between the first and the last key of block `i`.
pub open spec fn covers(metas: Seq<MetaView>, i: int, key: Seq<u8>) -> bool {
    key_le(metas[i].first_key, key) && key_le(key, metas[i].last_key)
}

/// In an index that is in order, a later block begins above the end of an
/// earlier one.
pub proof fn lemma_metas_ascend(metas: Seq<MetaView>, i: int, j: int)
    requires
        metas_in_order(metas),
        0 <= i < j < metas.len(),
    ensures
        key_lt(metas[i].last_key, metas[j].first_key),
        key_lt(metas[i].last_key, metas[j].last_key),
    decreases j - i,
{
    assert(key_le(metas[j].first_key, metas[j].last_key));
    if i + 1 < j {
        lemma_metas_ascend(metas, i, j - 1);
        assert(key_lt(metas[j - 1].last_key, metas[j].first_key));
        lemma_key_lt_transitive(metas[i].last_key, metas[j - 1].last_key, metas[j].first_key);
    } else {
        assert(key_lt(metas[i].last_key, metas[i + 1].first_key));
    }
    lemma_key_le_transitive(metas[i].last_key, metas[j].first_key, metas[j].last_key);
}

/// What `find_block_idx` finds in an index that is in order: the one block
/// that covers `key`, if there is one; else the first block that begins
/// above `key`; and the number of blocks if `key` is above all of them.
pub proof fn lemma_found_block(metas: Seq<MetaView>, key: Seq<u8>, idx: int)
    requires
        metas_in_order(metas),
        0 <= idx <= metas.len(),
        idx < metas.len() ==> key_le(key, metas[idx].last_key),
        idx > 0 ==> key_lt(metas[idx - 1].last_key, key),
    ensures
        forall|j: int| 0 <= j < metas.len() && covers(metas, j, key) ==> j == idx,
        idx < metas.len() && !covers(metas, idx, key) ==> key_lt(key, metas[idx].first_key),
        forall|j: int| 0 <= j < idx ==> key_lt((#[trigger] metas[j]).first_key, key),
        forall|j: int| idx < j < metas.len() ==> key_lt(key, (#[trigger] metas[j]).first_key),
{
    assert forall|j: int| 0 <= j < idx implies key_lt((#[trigger] metas[j]).last_key, key) && key_lt(
        metas[j].first_key,
        key,
    ) by {
        if j < idx - 1 {
            lemma_metas_ascend(metas, j, idx - 1);
            lemma_key_lt_transitive(metas[j].last_key, metas[idx - 1].last_key, key);
        }
        lemma_key_le_transitive(metas[j].first_key, metas[j].last_key, key);
    }
    assert forall|j: int| idx < j < metas.len() implies key_lt(key, (#[trigger] metas[j]).first_key) by {
        lemma_metas_ascend(metas, idx, j);
        lemma_key_le_transitive(key, metas[idx].last_key, metas[j].first_key);
    }
    assert forall|j: int| 0 <= j < metas.len() && covers(metas, j, key) implies j == idx by {
        if j < idx {
            assert(key_lt(metas[j].last_key, key));
            lemma_key_trichotomy(key, metas[j].last_key);
        } else if j > idx {
            assert(key_lt(key, metas[j].first_key));
            lemma_key_trichotomy(key, metas[j].first_key);
        }
    }
    if idx < metas.len() && !covers(metas, idx, key) {
        lemma_key_trichotomy(key, metas[idx].first_key);
    }
}

/// The table is in order: every block can be decoded, the index names the
/// first and last key of every block, and the keys of all entries go up
/// strictly from each entry to the next, across the blocks.
pub open spec fn table_consistent(file: Seq<u8>, metas: Seq<MetaView>, end: int) -> bool {
    &&& blocks_described(file, metas, end)
    &&& strictly_sorted(entries_from(file, metas, end, 0))
}

/// In a table whose blocks can be decoded, the entries from block `i` on are
/// the end of the list of all entries, and every block holds an entry.
pub proof fn lemma_entries_suffix(file: Seq<u8>, metas: Seq<MetaView>, end: int, i: int)
    requires
        blocks_described(file, metas, end),
        0 <= i <= metas.len(),
    ensures
        entries_from(file, metas, end, i).len() <= entries_from(file, metas, end, 0).len(),
        entries_from(file, metas, end, 0).skip(
            entries_from(file, metas, end, 0).len() - entries_from(file, metas, end, i).len(),
        ) == entries_from(file, metas, end, i),
        i < metas.len() ==> {
            &&& block_entries(file, metas, end, i).len() >= 1
            &&& entries_from(file, metas, end, i) == block_entries(file, metas, end, i) + entries_from(
                file,
                metas,
                end,
                i + 1,
            )
        },
    decreases i,
{
    let all = entries_from(file, metas, end, 0);
    if i < metas.len() {
        assert(block_described(file, metas, end, i));
    }
    if i == 0 {
        assert(all.skip(0) =~= all);
    } else {
        lemma_entries_suffix(file, metas, end, i - 1);
        let before = entries_from(file, metas, end, i - 1);
        let here = entries_from(file, metas, end, i);
        let block = block_entries(file, metas, end, i - 1);
        assert(before == block + here);
        assert(all.skip(all.len() - before.len()).skip(block.len() as int) =~= all.skip(
            all.len() - here.len(),
        ));
        assert((block + here).skip(block.len() as int) =~= here);
    }
}

/// The index of a table that is in order is in order.
pub proof fn lemma_consistent_index(file: Seq<u8>, metas: Seq<MetaView>, end: int)
    requires
        table_consistent(file, metas, end),
    ensures
        metas_in_order(metas),
{
    let all = entries_from(file, metas, end, 0);
    assert forall|i: int| 0 <= i < metas.len() implies key_le(
        (#[trigger] metas[i]).first_key,
        metas[i].last_key,
    ) && (i + 1 < metas.len() ==> key_lt(metas[i].last_key, metas[i + 1].first_key)) by {
        lemma_entries_suffix(file, metas, end, i);
        lemma_entries_suffix(file, metas, end, i + 1);
        assert(block_described(file, metas, end, i));
        let here = entries_from(file, metas, end, i);
        let block = block_entries(file, metas, end, i);
        let after = entries_from(file, metas, end, i + 1);
        let off = all.len() - here.len();
        let last = block.len() - 1;
        assert(here == block + after);
        assert(all.skip(off)[0] == all[off]);
        assert(all.skip(off)[last] == all[off + last]);
        assert(here[0] == block[0]);
        assert(here[last] == block[last]);
        if last > 0 {
            assert(key_lt(all[off].0, all[off + last].0));
        }
        if i + 1 < metas.len() {
            assert(block_described(file, metas, end, i + 1));
            let next = block_entries(file, metas, end, i + 1);
            assert(after == next + entries_from(file, metas, end, i + 2));
            assert(after[0] == next[0]);
            assert(here[last + 1] == after[0]);
            assert(all.skip(off)[last + 1] == all[off + last + 1]);
            assert(key_lt(all[off + last].0, all[off + last + 1].0));
        }
    }
}

/// Where a search for `key` comes to rest in a table that is in order. Given
/// the block that the index names for `key` and the place that the search
/// within that block comes to, what is left of the block and the blocks
/// behind it are the entries of the table from the least key on that is not
/// below `key`. If the index names no block, no key of the table is that great.
pub proof fn lemma_seek_in_table(
    file: Seq<u8>,
    metas: Seq<MetaView>,
    end: int,
    key: Seq<u8>,
    idx: int,
    valid: bool,
    pos: int,
)
    requires
        table_consistent(file, metas, end),
        0 <= idx <= metas.len(),
        idx < metas.len() ==> key_le(key, metas[idx].last_key),
        idx > 0 ==> key_lt(metas[idx - 1].last_key, key),
        idx < metas.len() ==> seek_landing(block_entries(file, metas, end, idx), key, valid, pos),
    ensures
        ({
            let all = entries_from(file, metas, end, 0);
            &&& 0 <= lower_bound(all, key) <= all.len()
            &&& idx < metas.len() ==> {
                &&& valid
                &&& 0 <= pos < block_entries(file, metas, end, idx).len()
                &&& block_entries(file, metas, end, idx).skip(pos) + entries_from(file, metas, end, idx + 1)
                    == all.skip(lower_bound(all, key))
            }
            &&& idx == metas.len() ==> lower_bound(all, key) == all.len()
        }),
{
    let all = entries_from(file, metas, end, 0);
    let here = entries_from(file, metas, end, idx);
    let off = all.len() - here.len();
    lemma_entries_suffix(file, metas, end, idx);
    // every entry in front of block `idx` has a key below `key`
    assert forall|j: int| 0 <= j < off implies key_lt(#[trigger] all[j].0, key) by {
        lemma_entries_suffix(file, metas, end, idx - 1);
        let before = entries_from(file, metas, end, idx - 1);
        let block = block_entries(file, metas, end, idx - 1);
        assert(block_described(file, metas, end, idx - 1));
        assert(before == block + here);
        let last = off - 1;
        assert(all.skip(all.len() - before.len())[block.len() - 1] == all[last]);
        assert(before[block.len() - 1] == block[block.len() - 1]);
        assert(all[last].0 == metas[idx - 1].last_key);
        if j < last {
            assert(key_lt(all[j].0, all[last].0));
            lemma_key_lt_transitive(all[j].0, all[last].0, key);
        }
    }
    if idx < metas.len() {
        let block = block_entries(file, metas, end, idx);
        let after = entries_from(file, metas, end, idx + 1);
        assert(block_described(file, metas, end, idx));
        assert(here == block + after);
        assert forall|j: int| 0 <= j < here.len() implies #[trigger] here[j] == all[off + j] by {
            assert(all.skip(off)[j] == all[off + j]);
        }
        assert forall|a: int, b: int| 0 <= a < b < block.len() implies key_lt(
            #[trigger] block[a].0,
            #[trigger] block[b].0,
        ) by {
            assert(here[a] == block[a]);
            assert(here[b] == block[b]);
            assert(key_lt(all[off + a].0, all[off + b].0));
        }
        if !valid {
            lemma_key_trichotomy(key, block[block.len() - 1].0);
        }
        lemma_seek_lands_on_lower_bound(block, key, valid, pos);
        lemma_seek_finds_least(block, key, valid, pos);
        assert forall|j: int| 0 <= j < off + pos implies key_lt(#[trigger] all[j].0, key) by {
            if j >= off {
                assert(here[j - off] == block[j - off]);
                assert(key_lt(block[j - off].0, key));
            }
        }
        assert(here[pos] == block[pos]);
        lemma_key_le_not_lt(key, block[pos].0);
        lemma_lower_bound_is(all, key, off + pos);
        assert(block.skip(pos) + after =~= here.skip(pos));
        assert(all.skip(off).skip(pos) =~= all.skip(off + pos));
    } else {
        assert(here =~= Seq::<Entry>::empty());
        lemma_lower_bound_is(all, key, all.len() as int);
    }
}

/// Whether `rest` is what is left of `all` after a search for `key` has come
/// to rest in it: all of `all` from a place on that `seek_landing` allows, or
/// nothing if the search came to rest on no entry.
pub open spec fn landed(all: Seq<Entry>, key: Seq<u8>, rest: Seq<Entry>) -> bool {
    exists|p: int| #[trigger] landed_at(all, key, rest, p)
}

/// Whether `rest` is what is left of `all` after a search for `key` has come
/// to rest at place `p`, or on no entry.
pub open spec fn landed_at(all: Seq<Entry>, key: Seq<u8>, rest: Seq<Entry>, p: int) -> bool {
    seek_landing(all, key, rest.len() > 0, p) && (rest.len() > 0 ==> rest == all.skip(p))
}

/// Where a search for `key` comes to rest in a table whose blocks can be
/// decoded and whose index names their first and last keys, whatever the
/// order of its keys. Given the block that the index names for `key` and
/// the place that the search within that block comes to, the search has come
/// to rest in the list of all entries at that place of that block.
pub proof fn lemma_seek_lands_in_table(
    file: Seq<u8>,
    metas: Seq<MetaView>,
    end: int,
    key: Seq<u8>,
    idx: int,
    valid: bool,
    pos: int,
)
    requires
        blocks_described(file, metas, end),
        0 <= idx <= metas.len(),
        idx < metas.len() ==> key_le(key, metas[idx].last_key),
        idx > 0 ==> key_lt(metas[idx - 1].last_key, key),
        idx < metas.len() ==> seek_landing(block_entries(file, metas, end, idx), key, valid, pos),
    ensures
        idx < metas.len() ==> {
            &&& valid
            &&& 0 <= pos < block_entries(file, metas, end, idx).len()
            &&& landed(
                entries_from(file, metas, end, 0),
                key,
                block_entries(file, metas, end, idx).skip(pos) + entries_from(file, metas, end, idx + 1),
            )
        },
        idx == metas.len() ==> landed(entries_from(file, metas, end, 0), key, Seq::empty()),
{
    let all = entries_from(file, metas, end, 0);
    let here = entries_from(file, metas, end, idx);
    let off = all.len() - here.len();
    lemma_entries_suffix(file, metas, end, idx);
    if idx > 0 {
        lemma_entries_suffix(file, metas, end, idx - 1);
        let before = entries_from(file, metas, end, idx - 1);
        let block = block_entries(file, metas, end, idx - 1);
        assert(block_described(file, metas, end, idx - 1));
        assert(before == block + here);
        assert(all.skip(all.len() - before.len())[block.len() - 1] == all[off - 1]);
        assert(before[block.len() - 1] == block[block.len() - 1]);
        assert(all[off - 1].0 == metas[idx - 1].last_key);
    }
    if idx < metas.len() {
        let block = block_entries(file, metas, end, idx);
        let after = entries_from(file, metas, end, idx + 1);
        assert(block_described(file, metas, end, idx));
        assert(here == block + after);
        if !valid {
            lemma_key_trichotomy(key, block[block.len() - 1].0);
        }
        assert(all.skip(off)[pos] == all[off + pos]);
        assert(here[pos] == block[pos]);
        if pos > 0 {
            assert(all.skip(off)[pos - 1] == all[off + pos - 1]);
            assert(here[pos - 1] == block[pos - 1]);
        }
        let rest = block.skip(pos) + after;
        assert(rest =~= here.skip(pos));
        assert(all.skip(off).skip(pos) =~= all.skip(off + pos));
        assert(rest.len() > 0);
        assert(landed_at(all, key, rest, off + pos));
    } else {
        assert(here =~= Seq::<Entry>::empty());
        assert(landed_at(all, key, Seq::empty(), 0));
    }
}

/// Where the Bloom filter starts, as the last four bytes of the file say.
pub open spec fn file_bloom_offset(file: Seq<u8>) -> int {
    be32_at(file, file.len() - 4)
}

/// Where the index starts, as the four bytes before the Bloom filter say.
pub open spec fn file_meta_offset(file: Seq<u8>) -> int {
    be32_at(file, file_bloom_offset(file) - 4)
}

/// The bytes of the index.
pub open spec fn file_meta_bytes(file: Seq<u8>) -> Seq<u8> {
    file.subrange(file_meta_offset(file), file_bloom_offset(file) - 4)
}

/// The bytes of the Bloom filter.
pub open spec fn file_bloom_bytes(file: Seq<u8>) -> Seq<u8> {
    file.subrange(file_bloom_offset(file), file.len() - 4)
}

/// The file ends with a Bloom filter and its offset, and the index with its
/// offset lies before them.
pub open spec fn trailer_ok(file: Seq<u8>) -> bool {
    &&& file.len() >= 8
    &&& 4 <= file_bloom_offset(file) <= file.len() - 4
    &&& file_meta_offset(file) <= file_bloom_offset(file) - 4
}

/// The file is a table: its trailer is in order, its Bloom filter is not
/// empty, and its index lists at least one block, the first at offset 0, each
/// ending after it starts and the last no later than the index.
pub open spec fn readable(file: Seq<u8>) -> bool {
    &&& trailer_ok(file)
    &&& file_bloom_bytes(file).len() >= 1
    &&& parse_metas(file_meta_bytes(file), 0) is Some
    &&& parse_metas(file_meta_bytes(file), 0)->0.len() >= 1
    &&& parse_metas(file_meta_bytes(file), 0)->0[0].offset == 0
    &&& ranges_ok(parse_metas(file_meta_bytes(file), 0)->0, file_meta_offset(file))
}

/// A table as it is written: the blocks, the index, the offset of the index,
/// the Bloom filter, the offset of the Bloom filter.
pub open spec fn table_encoding(blocks: Seq<u8>, metas: Seq<MetaView>, bloom: Seq<u8>) -> Seq<u8> {
    blocks + metas_encoding(metas) + be32_bytes(blocks.len() as int) + bloom + be32_bytes(
        (blocks.len() + metas_encoding(metas).len() + 4) as int,
    )
}

/// A table that was written can be read: the file that `table_encoding`
/// describes is readable, and reading it gives the index, the end of the
/// blocks and the Bloom filter that were written, with the blocks at its front.
pub proof fn lemma_table_encoding_readable(blocks: Seq<u8>, metas: Seq<MetaView>, bloom: Seq<u8>)
    requires
        metas_valid(metas),
        metas.len() >= 1,
        metas[0].offset == 0,
        ranges_ok(metas, blocks.len() as int),
        bloom.len() >= 1,
        blocks.len() + metas_encoding(metas).len() + 4 <= u32::MAX,
    ensures
        readable(table_encoding(blocks, metas, bloom)),
        file_meta_offset(table_encoding(blocks, metas, bloom)) == blocks.len(),
        parse_metas(file_meta_bytes(table_encoding(blocks, metas, bloom)), 0) == Some(metas),
        file_bloom_bytes(table_encoding(blocks, metas, bloom)) == bloom,
        table_encoding(blocks, metas, bloom).subrange(0, blocks.len() as int) == blocks,
{
    let index = metas_encoding(metas);
    let b = blocks.len() as int;
    let m = index.len() as int;
    let first = be32_bytes(b);
    let second = be32_bytes(b + m + 4);
    let file = table_encoding(blocks, metas, bloom);
    let len = file.len() as int;
    lemma_be32_round_trip(b);
    lemma_be32_round_trip(b + m + 4);
    assert(len == b + m + 4 + bloom.len() + 4);
    assert(file[len - 4] == second[0] && file[len - 3] == second[1] && file[len - 2] == second[2]
        && file[len - 1] == second[3]);
    assert(file_bloom_offset(file) == b + m + 4);
    assert(file[b + m] == first[0] && file[b + m + 1] == first[1] && file[b + m + 2] == first[2] && file[b
        + m + 3] == first[3]);
    assert(file_meta_offset(file) == b);
    assert(file_meta_bytes(file) =~= index);
    assert(file_bloom_bytes(file) =~= bloom);
    assert(file.subrange(0, b) =~= blocks);
    lemma_parse_encoding(metas);
}

/// What is said of the blocks of a file holds of every file that begins
/// with the same bytes up to the end of the blocks.
pub proof fn lemma_same_blocks(file: Seq<u8>, blocks: Seq<u8>, metas: Seq<MetaView>, end: int)
    requires
        end == blocks.len(),
        end <= file.len(),
        file.subrange(0, end) == blocks,
        ranges_ok(metas, end),
    ensures
        forall|i: int|
            0 <= i < metas.len() ==> #[trigger] block_bytes(file, metas, end, i) == block_bytes(
                blocks,
                metas,
                end,
                i,
            ),
        blocks_described(blocks, metas, end) ==> blocks_described(file, metas, end),
        forall|i: int|
            0 <= i <= metas.len() ==> #[trigger] entries_from(file, metas, end, i) == entries_from(
                blocks,
                metas,
                end,
                i,
            ),
{
    assert forall|i: int| 0 <= i < metas.len() implies #[trigger] block_bytes(file, metas, end, i)
        == block_bytes(blocks, metas, end, i) by {
        lemma_block_end_bound(metas, end, i);
        assert(block_bytes(file, metas, end, i) =~= block_bytes(blocks, metas, end, i));
    }
    if blocks_described(blocks, metas, end) {
        assert forall|i: int| 0 <= i < metas.len() implies #[trigger] block_described(
            file,
            metas,
            end,
            i,
        ) by {
            assert(block_described(blocks, metas, end, i));
            assert(block_bytes(file, metas, end, i) == block_bytes(blocks, metas, end, i));
        }
    }
    assert forall|i: int| 0 <= i <= metas.len() implies #[trigger] entries_from(file, metas, end, i)
        == entries_from(blocks, metas, end, i) by {
        lemma_same_entries(file, blocks, metas, end, i);
    }
}

/// The entries from block `i` on are the same in two files whose blocks are the same.
proof fn lemma_same_entries(file: Seq<u8>, blocks: Seq<u8>, metas: Seq<MetaView>, end: int, i: int)
    requires
        0 <= i <= metas.len(),
        forall|j: int|
            0 <= j < metas.len() ==> #[trigger] block_bytes(file, metas, end, j) == block_bytes(
                blocks,
                metas,
                end,
                j,
            ),
    ensures
        entries_from(file, metas, end, i) == entries_from(blocks, metas, end, i),
    decreases metas.len() - i,
{
    if i < metas.len() {
        assert(block_bytes(file, metas, end, i) == block_bytes(blocks, metas, end, i));
        lemma_same_entries(file, blocks, metas, end, i + 1);
    }
}

/// A table that is written and read again holds the entries that were
/// written: reading the file that `table_encoding` describes gives an index
/// and an end of the blocks under which the file holds the same entries.
pub proof fn lemma_table_round_trip(blocks: Seq<u8>, metas: Seq<MetaView>, bloom: Seq<u8>)
    requires
        metas_valid(metas),
        metas.len() >= 1,
        metas[0].offset == 0,
        ranges_ok(metas, blocks.len() as int),
        bloom.len() >= 1,
        blocks.len() + metas_encoding(metas).len() + 4 <= u32::MAX,
    ensures
        ({
            let file = table_encoding(blocks, metas, bloom);
            &&& readable(file)
            &&& entries_from(
                file,
                parse_metas(file_meta_bytes(file), 0)->0,
                file_meta_offset(file),
                0,
            ) == entries_from(blocks, metas, blocks.len() as int, 0)
            &&& table_consistent(blocks, metas, blocks.len() as int) ==> table_consistent(
                file,
                parse_metas(file_meta_bytes(file), 0)->0,
                file_meta_offset(file),
            )
        }),
{
    let file = table_encoding(blocks, metas, bloom);
    lemma_table_encoding_readable(blocks, metas, bloom);
    lemma_same_blocks(file, blocks, metas, blocks.len() as int);
}


} // verus!
