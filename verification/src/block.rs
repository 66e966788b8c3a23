//! A block: a run of key-value entries laid out back to back, with the table
//! of the offsets at which they start. Keys behind the first are stored as the
//! length of what they share with the first key, and the rest.

mod builder;
mod iterator;

pub use builder::{
    entry_size, first_entry_bytes, later_entry_bytes, lemma_entry_survives_append,
    lemma_first_entry, lemma_later_entry, BlockBuilder,
};
pub use iterator::{
    lemma_lower_bound_is, lemma_lower_bound_splits, lemma_seek_finds_least,
    lemma_seek_finds_least_key, lemma_seek_lands_on_lower_bound, lower_bound, lower_bound_from,
    seek_landing, strictly_sorted, weakly_sorted, BlockIterator,
};

use crate::error::StorageError;
use crate::wire::{be16_at, be16_bytes, copy_range, lemma_be16_at_bytes, put_u16, read_u16};
use vstd::prelude::*;

verus! {

/// A key with its value, as byte strings.
pub type Entry = (Seq<u8>, Seq<u8>);

/// Length of the key field of the entry that starts at `off`.
pub open spec fn key_field_len(data: Seq<u8>, off: int) -> int {
    be16_at(data, off)
}

/// Length of the value of the entry that starts at `off`.
pub open spec fn value_len(data: Seq<u8>, off: int) -> int {
    be16_at(data, off + 2 + key_field_len(data, off))
}

/// Where the value of the entry that starts at `off` begins.
pub open spec fn value_start(data: Seq<u8>, off: int) -> int {
    off + 2 + key_field_len(data, off) + 2
}

/// Where the entry that starts at `off` ends.
pub open spec fn entry_end(data: Seq<u8>, off: int) -> int {
    value_start(data, off) + value_len(data, off)
}

/// How many bytes of the first key the key of the entry at `off > 0` begins with.
pub open spec fn overlap_len(data: Seq<u8>, off: int) -> int {
    be16_at(data, off + 2)
}

/// How many bytes of its own the key of the entry at `off > 0` brings.
pub open spec fn rest_len(data: Seq<u8>, off: int) -> int {
    be16_at(data, off + 4)
}

/// The key of the first entry, which is stored in full.
pub open spec fn first_key(data: Seq<u8>) -> Seq<u8> {
    data.subrange(2, 2 + key_field_len(data, 0))
}

/// The key of the entry that starts at `off`.
pub open spec fn key_at(data: Seq<u8>, off: int) -> Seq<u8> {
    if off == 0 {
        first_key(data)
    } else {
        first_key(data).subrange(0, overlap_len(data, off)) + data.subrange(
            off + 6,
            off + 6 + rest_len(data, off),
        )
    }
}

/// The value of the entry that starts at `off`.
pub open spec fn value_at(data: Seq<u8>, off: int) -> Seq<u8> {
    data.subrange(value_start(data, off), entry_end(data, off))
}

/// The bytes from `off` on are an entry that lies within `data`: a first
/// entry with a key, or a later one whose key field is made as the format says.
pub open spec fn entry_fits(data: Seq<u8>, off: int) -> bool {
    &&& 0 <= off
    &&& off + 2 <= data.len()
    &&& off + 2 + key_field_len(data, off) + 2 <= data.len()
    &&& entry_end(data, off) <= data.len()
    &&& if off == 0 {
        key_field_len(data, off) >= 1
    } else {
        &&& key_field_len(data, off) == 4 + rest_len(data, off)
        &&& overlap_len(data, off) <= key_field_len(data, 0)
        &&& 1 <= overlap_len(data, off) + rest_len(data, off) <= 65535
    }
}

/// Where the entry behind entry `i` starts, or where the data end.
pub open spec fn next_offset(data: Seq<u8>, offsets: Seq<u16>, i: int) -> int {
    if i + 1 < offsets.len() {
        offsets[i + 1] as int
    } else {
        data.len() as int
    }
}

/// Entry `i` lies within `data` and ends where the next one starts, or with the data.
pub open spec fn entry_chained(data: Seq<u8>, offsets: Seq<u16>, i: int) -> bool {
    &&& entry_fits(data, offsets[i] as int)
    &&& entry_end(data, offsets[i] as int) == next_offset(data, offsets, i)
}

/// `data` is a run of entries without gaps, and `offsets` lists where they start.
pub open spec fn layout_ok(data: Seq<u8>, offsets: Seq<u16>) -> bool {
    &&& offsets.len() <= 65535
    &&& offsets.len() == 0 ==> data.len() == 0
    &&& offsets.len() > 0 ==> offsets[0] == 0
    &&& forall|i: int| 0 <= i < offsets.len() ==> #[trigger] entry_chained(data, offsets, i)
}

/// The entries that a laid-out block holds, in order.
pub open spec fn entries_of(data: Seq<u8>, offsets: Seq<u16>) -> Seq<Entry> {
    Seq::new(offsets.len(), |i: int| (key_at(data, offsets[i] as int), value_at(data, offsets[i] as int)))
}

/// The offset table as it is written: two bytes for each offset, high byte first.
pub open spec fn offsets_encoding(offsets: Seq<u16>) -> Seq<u8> {
    Seq::new(
        2 * offsets.len(),
        |j: int|
            if j % 2 == 0 {
                (offsets[j / 2] / 256) as u8
            } else {
                (offsets[j / 2] % 256) as u8
            },
    )
}

/// A block as it is written: the entries, the offset table, the number of entries.
pub open spec fn block_encoding(data: Seq<u8>, offsets: Seq<u16>) -> Seq<u8> {
    data + offsets_encoding(offsets) + be16_bytes(offsets.len() as int)
}

/// The number of entries that the last two bytes of `bytes` announce.
pub open spec fn encoded_count(bytes: Seq<u8>) -> int {
    be16_at(bytes, bytes.len() - 2)
}

/// Length of the entries region of an encoded block.
pub open spec fn encoded_data_len(bytes: Seq<u8>) -> int {
    bytes.len() - 2 - 2 * encoded_count(bytes)
}

/// The entries region of an encoded block.
pub open spec fn encoded_data(bytes: Seq<u8>) -> Seq<u8> {
    bytes.subrange(0, encoded_data_len(bytes))
}

/// The offset table of an encoded block.
pub open spec fn encoded_offsets(bytes: Seq<u8>) -> Seq<u16> {
    Seq::new(
        encoded_count(bytes) as nat,
        |i: int| be16_at(bytes, encoded_data_len(bytes) + 2 * i) as u16,
    )
}

/// `bytes` is what `Block::encode` writes for some block with at least one entry.
pub open spec fn decodable(bytes: Seq<u8>) -> bool {
    &&& bytes.len() >= 2
    &&& encoded_count(bytes) >= 1
    &&& bytes.len() >= 2 + 2 * encoded_count(bytes)
    &&& layout_ok(encoded_data(bytes), encoded_offsets(bytes))
}

/// In a laid-out block the entries behind the first start behind offset 0,
/// and every entry starts where the one before it ends.
pub proof fn lemma_offsets_ascend(data: Seq<u8>, offsets: Seq<u16>, i: int)
    requires
        layout_ok(data, offsets),
        0 < i < offsets.len(),
    ensures
        offsets[i] as int >= offsets[i - 1] as int + 5,
        offsets[i] as int > 0,
{
    assert(entry_chained(data, offsets, i - 1));
    assert(entry_chained(data, offsets, 0));
    lemma_be16_nonneg(data, offsets[i - 1] as int + 2 + key_field_len(data, offsets[i - 1] as int));
}

/// Two bytes spell a number from 0 to 65535.
proof fn lemma_be16_nonneg(s: Seq<u8>, i: int)
    ensures
        0 <= be16_at(s, i) < 65536,
{
}

/// Every entry of a laid-out block has a key of 1 to 65535 bytes and a value
/// of at most 65535 bytes.
pub proof fn lemma_entries_valid(data: Seq<u8>, offsets: Seq<u16>, i: int)
    requires
        layout_ok(data, offsets),
        0 <= i < offsets.len(),
    ensures
        crate::key::valid_key(entries_of(data, offsets)[i].0),
        crate::key::valid_value(entries_of(data, offsets)[i].1),
{
    let off = offsets[i] as int;
    assert(entry_chained(data, offsets, i));
    assert(entry_chained(data, offsets, 0));
    lemma_be16_nonneg(data, off);
    lemma_be16_nonneg(data, off + 2);
    lemma_be16_nonneg(data, off + 4);
    lemma_be16_nonneg(data, off + 2 + key_field_len(data, off));
    if i > 0 {
        lemma_offsets_ascend(data, offsets, i);
    }
}

/// What `encode` writes can be decoded, and the parts that come back are the
/// block's own.
pub proof fn lemma_encoding_decodable(data: Seq<u8>, offsets: Seq<u16>)
    requires
        layout_ok(data, offsets),
        offsets.len() >= 1,
    ensures
        decodable(block_encoding(data, offsets)),
        encoded_data(block_encoding(data, offsets)) == data,
        encoded_offsets(block_encoding(data, offsets)) == offsets,
{
    let bytes = block_encoding(data, offsets);
    let n = offsets.len() as int;
    assert(bytes.len() == data.len() + 2 * n + 2);
    assert(bytes[bytes.len() - 2] == be16_bytes(n)[0]);
    assert(bytes[bytes.len() - 1] == be16_bytes(n)[1]);
    assert(encoded_count(bytes) == n);
    assert(encoded_data(bytes) =~= data);
    assert forall|i: int| 0 <= i < n implies encoded_offsets(bytes)[i] == offsets[i] by {
        let p = data.len() + 2 * i;
        assert(bytes[p] == offsets_encoding(offsets)[2 * i]);
        assert(bytes[p + 1] == offsets_encoding(offsets)[2 * i + 1]);
    }
    assert(encoded_offsets(bytes) =~= offsets);
}

/// Bytes that can be decoded are what `encode` writes for the block that
/// decoding them gives: the decoder accepts the encoder's output and nothing else.
pub proof fn lemma_decodable_is_encoding(bytes: Seq<u8>)
    requires
        decodable(bytes),
    ensures
        block_encoding(encoded_data(bytes), encoded_offsets(bytes)) == bytes,
{
    let data = encoded_data(bytes);
    let offsets = encoded_offsets(bytes);
    let n = encoded_count(bytes);
    let out = block_encoding(data, offsets);
    lemma_be16_at_bytes(bytes, bytes.len() - 2);
    assert(out.len() == bytes.len());
    assert forall|j: int| 0 <= j < bytes.len() implies out[j] == bytes[j] by {
        if j < data.len() {
        } else if j < data.len() + 2 * n {
            let k = j - data.len();
            let i = k / 2;
            lemma_be16_at_bytes(bytes, data.len() + 2 * i);
            assert(out[j] == offsets_encoding(offsets)[k]);
            assert(bytes.subrange(data.len() + 2 * i, data.len() + 2 * i + 2)[k - 2 * i] == bytes[j]);
        } else {
            let k = j - data.len() - 2 * n;
            assert(out[j] == be16_bytes(n)[k]);
            assert(bytes.subrange(bytes.len() - 2, bytes.len() as int)[k] == bytes[j]);
        }
    }
    assert(out =~= bytes);
}

/// A block that is written and read back holds the entries that it held, in
/// their order.
pub proof fn lemma_block_round_trip(b: Block)
    requires
        b.wf(),
        b@.len() >= 1,
    ensures
        decodable(b.encoding()),
        entries_of(encoded_data(b.encoding()), encoded_offsets(b.encoding())) == b@,
{
    lemma_encoding_decodable(b.raw_data(), b.raw_offsets());
}

/// A sorted run of key-value entries, the unit in which a table is read and cached.
pub struct Block {
    pub(crate) data: Vec<u8>,
    pub(crate) offsets: Vec<u16>,
}

impl View for Block {
    type V = Seq<Entry>;

    /// The entries of the block, in order.
    open spec fn view(&self) -> Seq<Entry> {
        entries_of(self.raw_data(), self.raw_offsets())
    }
}

impl Block {
    /// Every block is a run of entries with the table of their starts.
    #[verifier::type_invariant]
    spec fn inv(self) -> bool {
        layout_ok(self.data@, self.offsets@)
    }

    /// The entries region.
    pub closed spec fn raw_data(&self) -> Seq<u8> {
        self.data@
    }

    /// The offset at which each entry starts.
    pub closed spec fn raw_offsets(&self) -> Seq<u16> {
        self.offsets@
    }

    /// The entries lie back to back and the offsets list their starts. Every
    /// block that the library hands out is well formed.
    pub open spec fn wf(&self) -> bool {
        layout_ok(self.raw_data(), self.raw_offsets())
    }

    /// The bytes that `encode` writes for this block.
    pub open spec fn encoding(&self) -> Seq<u8> {
        block_encoding(self.raw_data(), self.raw_offsets())
    }

    /// Number of entries in the block.
    pub fn num_entries(&self) -> (n: usize)
        ensures
            self.wf(),
            n == self@.len(),
    {
        proof {
            use_type_invariant(self);
        }
        self.offsets.len()
    }

    /// Writes the block: the entries region, then each offset as two bytes,
    /// then the number of entries as two bytes, high bytes first. A block
    /// without entries has no encoding.
    pub fn encode(&self) -> (out: Vec<u8>)
        requires
            self@.len() >= 1,
        ensures
            self.wf(),
            out@ == self.encoding(),
            decodable(out@),
            entries_of(encoded_data(out@), encoded_offsets(out@)) == self@,
    {
        proof {
            use_type_invariant(self);
            lemma_encoding_decodable(self.data@, self.offsets@);
        }
        let mut out: Vec<u8> = self.data.clone();
        assert(out@ =~= self.data@);
        let n: usize = self.offsets.len();
        let mut i: usize = 0;
        while i < n
            invariant
                n == self.offsets@.len(),
                0 <= i <= n,
                out@ == self.data@ + offsets_encoding(self.offsets@.subrange(0, i as int)),
            decreases n - i,
        {
            put_u16(&mut out, self.offsets[i]);
            proof {
                let a = offsets_encoding(self.offsets@.subrange(0, i as int));
                let b = offsets_encoding(self.offsets@.subrange(0, i as int + 1));
                assert(b =~= a + be16_bytes(self.offsets@[i as int] as int));
                assert(out@ =~= self.data@ + b);
            }
            i = i + 1;
        }
        assert(self.offsets@.subrange(0, n as int) =~= self.offsets@);
        put_u16(&mut out, n as u16);
        out
    }

    /// Reads a block back from what `encode` wrote. Bytes that no block
    /// encodes to are refused as a format error.
    pub fn decode(data: &[u8]) -> (r: Result<Block, StorageError>)
        ensures
            match r {
                Ok(b) => {
                    &&& decodable(data@)
                    &&& b.wf()
                    &&& b.raw_data() == encoded_data(data@)
                    &&& b.raw_offsets() == encoded_offsets(data@)
                    &&& b@ == entries_of(encoded_data(data@), encoded_offsets(data@))
                    &&& b@.len() >= 1
                    &&& b.encoding() == data@
                },
                Err(e) => e == StorageError::Format && !decodable(data@),
            },
    {
        let len: usize = data.len();
        if len < 2 {
            return Err(StorageError::Format);
        }
        let count: usize = read_u16(data, len - 2) as usize;
        if count == 0 || (len - 2) / 2 < count {
            return Err(StorageError::Format);
        }
        let data_len: usize = len - 2 - 2 * count;
        let mut offsets: Vec<u16> = Vec::new();
        let mut i: usize = 0;
        while i < count
            invariant
                len == data@.len(),
                count == encoded_count(data@),
                data_len == encoded_data_len(data@),
                data_len + 2 * count + 2 == len,
                0 <= i <= count,
                offsets@ == encoded_offsets(data@).subrange(0, i as int),
            decreases count - i,
        {
            let off: u16 = read_u16(data, data_len + 2 * i);
            offsets.push(off);
            i = i + 1;
            assert(offsets@ =~= encoded_offsets(data@).subrange(0, i as int));
        }
        assert(offsets@ =~= encoded_offsets(data@));
        let entries: Vec<u8> = copy_range(data, 0, data_len);
        if !check_layout(&entries, &offsets) {
            return Err(StorageError::Format);
        }
        proof {
            lemma_decodable_is_encoding(data@);
        }
        Ok(Block { data: entries, offsets })
    }
}

/// Tests whether the bytes from `off` on are an entry within `data`, and
/// gives the place where it ends.
fn check_entry(data: &[u8], off: usize, first_len: usize) -> (r: Option<usize>)
    requires
        off <= 65535,
        off > 0 ==> data@.len() >= 2 && first_len == key_field_len(data@, 0),
    ensures
        r is Some <==> entry_fits(data@, off as int),
        r is Some ==> r->0 == entry_end(data@, off as int),
{
    let len: usize = data.len();
    if len < 4 || off > len - 4 {
        return None;
    }
    let field: usize = read_u16(data, off) as usize;
    if field > len - 4 - off {
        return None;
    }
    let vlen: usize = read_u16(data, off + 2 + field) as usize;
    if vlen > len - 4 - off - field {
        return None;
    }
    if off == 0 {
        if field < 1 {
            return None;
        }
    } else {
        if field < 4 {
            proof {
                lemma_be16_nonneg(data@, off as int + 4);
            }
            return None;
        }
        let overlap: usize = read_u16(data, off + 2) as usize;
        let rest: usize = read_u16(data, off + 4) as usize;
        if field != 4 + rest || overlap > first_len || overlap + rest < 1 || overlap + rest > 65535 {
            return None;
        }
    }
    Some(off + 2 + field + 2 + vlen)
}

/// Tests whether `data` is a run of entries that start at `offsets`.
pub(crate) fn check_layout(data: &[u8], offsets: &Vec<u16>) -> (ok: bool)
    ensures
        ok == layout_ok(data@, offsets@),
{
    let n: usize = offsets.len();
    if n > 65535 {
        return false;
    }
    if n == 0 {
        return data.len() == 0;
    }
    if offsets[0] != 0 {
        return false;
    }
    if data.len() < 2 {
        assert(!entry_chained(data@, offsets@, 0));
        return false;
    }
    let first_len: usize = read_u16(data, 0) as usize;
    let mut i: usize = 0;
    while i < n
        invariant
            n == offsets@.len(),
            1 <= n <= 65535,
            0 <= i <= n,
            offsets@[0] == 0,
            data@.len() >= 2,
            first_len == key_field_len(data@, 0),
            forall|j: int| 0 <= j < i ==> #[trigger] entry_chained(data@, offsets@, j),
        decreases n - i,
    {
        let off: usize = offsets[i] as usize;
        let next: usize = if i + 1 < n {
            offsets[i + 1] as usize
        } else {
            data.len()
        };
        match check_entry(data, off, first_len) {
            None => {
                assert(!entry_chained(data@, offsets@, i as int));
                return false;
            },
            Some(end) => {
                if end != next {
                    assert(!entry_chained(data@, offsets@, i as int));
                    return false;
                }
            },
        }
        i = i + 1;
    }
    true
}

} // verus!
