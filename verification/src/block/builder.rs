//! Filling a block with entries.

use super::{
    entries_of, entry_chained, entry_end, entry_fits, first_key, key_at, key_field_len, layout_ok,
    overlap_len, rest_len, value_at, value_len, Block, Entry,
};
use crate::key::{common_prefix, common_prefix_len, lemma_common_prefix, valid_key, valid_value};
use crate::wire::{be16_bytes, lemma_be16_round_trip, put_slice, put_u16};
use vstd::prelude::*;

verus! {

/// How many bytes an entry takes in a block whose first key is `first`; the
/// first entry of a block is the one added while the block is empty.
pub open spec fn entry_size(is_first: bool, first: Seq<u8>, key: Seq<u8>, value: Seq<u8>) -> int {
    if is_first {
        4 + key.len() as int + value.len() as int
    } else {
        8 + key.len() - common_prefix_len(first, key) + value.len()
    }
}

/// What a block's data hold of an entry does not change when bytes are
/// appended to the data.
pub proof fn lemma_entry_survives_append(old_data: Seq<u8>, new_data: Seq<u8>, off: int)
    requires
        old_data.len() <= new_data.len(),
        new_data.subrange(0, old_data.len() as int) == old_data,
        entry_fits(old_data, off),
        entry_fits(old_data, 0),
    ensures
        entry_fits(new_data, off),
        entry_end(new_data, off) == entry_end(old_data, off),
        key_at(new_data, off) == key_at(old_data, off),
        value_at(new_data, off) == value_at(old_data, off),
{
    assert forall|j: int| 0 <= j < old_data.len() implies new_data[j] == old_data[j] by {
        assert(new_data.subrange(0, old_data.len() as int)[j] == new_data[j]);
    }
    let field = key_field_len(old_data, off);
    assert(0 <= field) by {
        crate::wire::lemma_be16_at_bytes(old_data, off);
    }
    assert(key_field_len(new_data, off) == field);
    assert(0 <= key_field_len(old_data, 0)) by {
        crate::wire::lemma_be16_at_bytes(old_data, 0);
    }
    assert(key_field_len(new_data, 0) == key_field_len(old_data, 0));
    assert(value_len(new_data, off) == value_len(old_data, off));
    assert(0 <= value_len(old_data, off)) by {
        crate::wire::lemma_be16_at_bytes(old_data, off + 2 + field);
    }
    assert(first_key(new_data) =~= first_key(old_data));
    assert(value_at(new_data, off) =~= value_at(old_data, off));
    if off != 0 {
        assert(overlap_len(new_data, off) == overlap_len(old_data, off));
        assert(rest_len(new_data, off) == rest_len(old_data, off));
        assert(0 <= rest_len(old_data, off)) by {
            crate::wire::lemma_be16_at_bytes(old_data, off + 4);
        }
        assert(new_data.subrange(off + 6, off + 6 + rest_len(new_data, off)) =~= old_data.subrange(
            off + 6,
            off + 6 + rest_len(old_data, off),
        ));
    }
}

/// The bytes of the first entry of a block.
pub open spec fn first_entry_bytes(key: Seq<u8>, value: Seq<u8>) -> Seq<u8> {
    be16_bytes(key.len() as int) + key + be16_bytes(value.len() as int) + value
}

/// The bytes of an entry behind the first, in a block whose first key is `first`.
pub open spec fn later_entry_bytes(first: Seq<u8>, key: Seq<u8>, value: Seq<u8>) -> Seq<u8> {
    let overlap = common_prefix_len(first, key);
    let rest = key.len() - overlap;
    be16_bytes(4 + rest) + be16_bytes(overlap) + be16_bytes(rest) + key.subrange(
        overlap,
        key.len() as int,
    ) + be16_bytes(value.len() as int) + value
}

/// The bytes of a first entry are a block of one entry.
pub proof fn lemma_first_entry(key: Seq<u8>, value: Seq<u8>)
    requires
        valid_key(key),
        valid_value(value),
    ensures
        layout_ok(first_entry_bytes(key, value), seq![0u16]),
        entries_of(first_entry_bytes(key, value), seq![0u16]) == seq![(key, value)],
        first_key(first_entry_bytes(key, value)) == key,
        first_entry_bytes(key, value).len() == 4 + key.len() + value.len(),
{
    let d = first_entry_bytes(key, value);
    let k = key.len() as int;
    let v = value.len() as int;
    lemma_be16_round_trip(k);
    lemma_be16_round_trip(v);
    assert(d.len() == 4 + k + v);
    assert(d[0] == be16_bytes(k)[0] && d[1] == be16_bytes(k)[1]);
    assert(key_field_len(d, 0) == k);
    assert(d[2 + k] == be16_bytes(v)[0] && d[2 + k + 1] == be16_bytes(v)[1]);
    assert(value_len(d, 0) == v);
    assert(first_key(d) =~= key);
    assert(value_at(d, 0) =~= value);
    assert(entry_chained(d, seq![0u16], 0));
    assert(entries_of(d, seq![0u16]) =~= seq![(key, value)]);
}

/// The fields of an entry behind the first, read back from its bytes at the
/// end of `data`.
proof fn lemma_later_entry_fields(data: Seq<u8>, first: Seq<u8>, key: Seq<u8>, value: Seq<u8>)
    requires
        valid_key(key),
        valid_value(value),
        key.len() - common_prefix_len(first, key) + 4 <= 65535,
    ensures
        ({
            let d = data + later_entry_bytes(first, key, value);
            let s = data.len() as int;
            let o = common_prefix_len(first, key);
            let r = key.len() - o;
            &&& d.len() == s + 8 + r + value.len()
            &&& d.subrange(0, s) == data
            &&& key_field_len(d, s) == 4 + r
            &&& overlap_len(d, s) == o
            &&& rest_len(d, s) == r
            &&& value_len(d, s) == value.len()
            &&& d.subrange(s + 6, s + 6 + r) == key.subrange(o, key.len() as int)
            &&& value_at(d, s) == value
        }),
{
    lemma_common_prefix(first, key);
    let e = later_entry_bytes(first, key, value);
    let d = data + e;
    let s = data.len() as int;
    let o = common_prefix_len(first, key);
    let r = key.len() - o;
    let v = value.len() as int;
    lemma_be16_round_trip(4 + r);
    lemma_be16_round_trip(o);
    lemma_be16_round_trip(r);
    lemma_be16_round_trip(v);
    assert(e.len() == 8 + r + v);
    assert(e[0] == be16_bytes(4 + r)[0] && e[1] == be16_bytes(4 + r)[1]);
    assert(e[2] == be16_bytes(o)[0] && e[3] == be16_bytes(o)[1]);
    assert(e[4] == be16_bytes(r)[0] && e[5] == be16_bytes(r)[1]);
    assert(e[6 + r] == be16_bytes(v)[0] && e[6 + r + 1] == be16_bytes(v)[1]);
    assert(forall|j: int| s <= j < d.len() ==> #[trigger] d[j] == e[j - s]);
    assert(d[s] == e[0] && d[s + 1] == e[1] && d[s + 2] == e[2] && d[s + 3] == e[3]);
    assert(d[s + 4] == e[4] && d[s + 5] == e[5]);
    assert(d[s + 6 + r] == e[6 + r] && d[s + 6 + r + 1] == e[6 + r + 1]);
    assert(d.subrange(0, s) =~= data);
    assert(d.subrange(s + 6, s + 6 + r) =~= key.subrange(o, key.len() as int)) by {
        assert forall|j: int| s + 6 <= j < s + 6 + r implies #[trigger] d[j] == key[j - s - 6 + o] by {
            assert(d[j] == e[j - s]);
        }
    }
    assert(value_at(d, s) =~= value) by {
        assert forall|j: int| s + 8 + r <= j < s + 8 + r + v implies #[trigger] d[j] == value[j - s - 8
            - r] by {
            assert(d[j] == e[j - s]);
        }
    }
}

/// Appending the bytes of one more entry to a laid-out block gives the
/// layout of the block with that entry at its end.
pub proof fn lemma_later_entry(data: Seq<u8>, offsets: Seq<u16>, key: Seq<u8>, value: Seq<u8>)
    requires
        layout_ok(data, offsets),
        1 <= offsets.len() < 65535,
        data.len() <= 65535,
        valid_key(key),
        valid_value(value),
        key.len() - common_prefix_len(first_key(data), key) + 4 <= 65535,
    ensures
        ({
            let d = data + later_entry_bytes(first_key(data), key, value);
            let offs = offsets.push(data.len() as u16);
            &&& layout_ok(d, offs)
            &&& entries_of(d, offs) == entries_of(data, offsets).push((key, value))
            &&& first_key(d) == first_key(data)
            &&& d.len() == data.len() + entry_size(false, first_key(data), key, value)
        }),
{
    let first = first_key(data);
    let d = data + later_entry_bytes(first, key, value);
    let offs = offsets.push(data.len() as u16);
    let s = data.len() as int;
    let n = offsets.len() as int;
    let o = common_prefix_len(first, key);
    lemma_common_prefix(first, key);
    lemma_later_entry_fields(data, first, key, value);
    assert(entry_chained(data, offsets, 0));
    assert(entry_chained(data, offsets, n - 1));
    assert(s > 0);
    lemma_entry_survives_append(data, d, 0);
    assert(first_key(d) == first);
    assert(key_at(d, s) =~= key) by {
        assert(first.subrange(0, o) =~= key.subrange(0, o));
        assert(key.subrange(0, o) + key.subrange(o, key.len() as int) =~= key);
    }
    assert(entry_fits(d, s));
    assert forall|i: int| 0 <= i < offs.len() implies #[trigger] entry_chained(d, offs, i) by {
        if i < n {
            assert(entry_chained(data, offsets, i));
            lemma_entry_survives_append(data, d, offsets[i] as int);
        }
    }
    assert forall|i: int| 0 <= i < n implies entries_of(d, offs)[i] == entries_of(data, offsets)[i] by {
        assert(entry_chained(data, offsets, i));
        lemma_entry_survives_append(data, d, offsets[i] as int);
    }
    assert(entries_of(d, offs) =~= entries_of(data, offsets).push((key, value)));
}

/// Collects entries until the size budget of one block is used up.
pub struct BlockBuilder {
    /// Offset of each entry in `data`.
    offsets: Vec<u16>,
    /// The entries, laid out back to back.
    data: Vec<u8>,
    /// The size that the encoded block should stay within.
    block_size: usize,
    /// The key of the first entry; empty while there is none.
    first_key: Vec<u8>,
}

impl View for BlockBuilder {
    type V = Seq<Entry>;

    /// The entries added so far, in order.
    closed spec fn view(&self) -> Seq<Entry> {
        entries_of(self.data@, self.offsets@)
    }
}

impl BlockBuilder {
    /// What the builder holds is the layout of the entries added so far.
    pub closed spec fn wf(&self) -> bool {
        &&& layout_ok(self.data@, self.offsets@)
        &&& self.offsets@.len() == 0 ==> self.first_key@.len() == 0
        &&& self.offsets@.len() > 0 ==> self.first_key@ == first_key(self.data@)
    }

    /// The bytes that the block made of the entries so far is written as.
    pub closed spec fn encoding(&self) -> Seq<u8> {
        super::block_encoding(self.data@, self.offsets@)
    }

    /// The encoding is as long as the entries, their offsets and their number.
    pub proof fn lemma_encoding_len(&self)
        ensures
            self.encoding().len() == self.data_len() + 2 * self@.len() + 2,
    {
    }

    /// The size budget that the builder was made with.
    pub closed spec fn budget(&self) -> int {
        self.block_size as int
    }

    /// Number of bytes that the entries added so far take.
    pub closed spec fn data_len(&self) -> int {
        self.data@.len() as int
    }

    /// The size that the encoded block is taken to have once `key` and `value`
    /// are in: the offset table and the entries so far, one more offset, the
    /// eight bytes of length fields of an entry behind the first, and both payloads.
    pub open spec fn size_with(&self, key: Seq<u8>, value: Seq<u8>) -> int {
        2 * self@.len() as int + self.data_len() + 2 + 8 + key.len() as int + value.len() as int
    }

    /// Whether the format can hold the entry behind those that are in: its
    /// offset and the number of entries must fit two bytes each, and so must
    /// the length of its key field, which is four bytes and what the key
    /// does not share with the first key.
    pub open spec fn representable(&self, key: Seq<u8>) -> bool {
        &&& self.data_len() <= 65535
        &&& self@.len() < 65535
        &&& 4 + key.len() - common_prefix_len(self@[0].0, key) <= 65535
    }

    /// Whether `add` takes the entry. An empty builder takes any entry. One
    /// that holds entries takes those that keep the block within the budget,
    /// as far as the format can hold them.
    pub open spec fn accepts(&self, key: Seq<u8>, value: Seq<u8>) -> bool {
        self@.len() == 0 || (self.size_with(key, value) <= self.budget() && self.representable(key))
    }

    /// Creates a builder for blocks of about `block_size` bytes.
    pub fn new(block_size: usize) -> (b: Self)
        ensures
            b.wf(),
            b@.len() == 0,
            b.data_len() == 0,
            b.budget() == block_size,
    {
        let b = BlockBuilder {
            offsets: Vec::new(),
            data: Vec::new(),
            block_size,
            first_key: Vec::new(),
        };
        assert(b@ =~= Seq::<Entry>::empty());
        b
    }

    /// Adds an entry at the end of the block, or returns `false` and leaves
    /// the builder as it is when the block is full. The first entry is written
    /// with its key in full; a later one with the number of bytes that its key
    /// shares with the first key, and the bytes behind them.
    #[must_use]
    pub fn add(&mut self, key: &[u8], value: &[u8]) -> (ok: bool)
        requires
            old(self).wf(),
            valid_key(key@),
            valid_value(value@),
        ensures
            final(self).wf(),
            final(self).budget() == old(self).budget(),
            ok == old(self).accepts(key@, value@),
            ok ==> final(self)@ == old(self)@.push((key@, value@)),
            ok ==> final(self).data_len() == old(self).data_len() + entry_size(
                old(self)@.len() == 0,
                if old(self)@.len() == 0 {
                    key@
                } else {
                    old(self)@[0].0
                },
                key@,
                value@,
            ),
            !ok ==> *final(self) == *old(self),
    {
        let count: usize = self.offsets.len();
        let ghost old_data = self.data@;
        let ghost old_offsets = self.offsets@;
        let mut overlap: usize = 0;
        if count > 0 {
            proof {
                assert(entry_chained(old_data, old_offsets, 0));
                lemma_common_prefix(self.first_key@, key@);
            }
            if self.data.len() > 65535 || count >= 65535 {
                return false;
            }
            let size: usize = count * 2 + self.data.len() + 2 + 8 + key.len() + value.len();
            if size > self.block_size {
                return false;
            }
            overlap = common_prefix(self.first_key.as_slice(), key);
            if 4 + (key.len() - overlap) > 65535 {
                return false;
            }
        }
        let start: usize = self.data.len();
        self.offsets.push(start as u16);
        if count == 0 {
            put_u16(&mut self.data, key.len() as u16);
            put_slice(&mut self.first_key, key);
            put_slice(&mut self.data, key);
            put_u16(&mut self.data, value.len() as u16);
            put_slice(&mut self.data, value);
            proof {
                lemma_first_entry(key@, value@);
                assert(self.data@ =~= first_entry_bytes(key@, value@));
                assert(self.offsets@ =~= seq![0u16]);
                assert(self.first_key@ =~= key@);
                assert(old(self)@ =~= Seq::<Entry>::empty());
                assert(seq![(key@, value@)] =~= old(self)@.push((key@, value@)));
            }
        } else {
            let rest: usize = key.len() - overlap;
            put_u16(&mut self.data, (4 + rest) as u16);
            put_u16(&mut self.data, overlap as u16);
            put_u16(&mut self.data, rest as u16);
            put_slice(&mut self.data, vstd::slice::slice_subrange(key, overlap, key.len()));
            put_u16(&mut self.data, value.len() as u16);
            put_slice(&mut self.data, value);
            proof {
                lemma_later_entry(old_data, old_offsets, key@, value@);
                assert(self.data@ =~= old_data + later_entry_bytes(first_key(old_data), key@, value@));
            }
        }
        true
    }

    /// Whether no entry has been added yet.
    pub fn is_empty(&self) -> (r: bool)
        requires
            self.wf(),
        ensures
            r == (self@.len() == 0),
    {
        proof {
            if self.offsets@.len() > 0 {
                assert(entry_chained(self.data@, self.offsets@, 0));
            }
        }
        self.first_key.is_empty()
    }

    /// Hands the entries over as a block.
    pub fn build(self) -> (b: Block)
        requires
            self.wf(),
        ensures
            b.wf(),
            b@ == self@,
            b.encoding() == self.encoding(),
    {
        Block { data: self.data, offsets: self.offsets }
    }
}

} // verus!
