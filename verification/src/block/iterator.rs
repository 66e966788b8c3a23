//! Walking over the entries of a block, and searching it for a key.

use super::{entry_chained, entry_end, entry_fits, key_at, value_len, value_start, Block, Entry};
use crate::key::{
    key_equal, key_le, key_less, key_lt, lemma_key_le_transitive, lemma_key_lt_transitive,
    lemma_key_trichotomy,
};
use crate::iterators::tail;
use crate::wire::{copy_range, lemma_be16_at_bytes, put_slice, read_u16};
use std::sync::Arc;
use vstd::prelude::*;

verus! {

/// The keys of `entries` go up strictly from each entry to the next.
pub open spec fn strictly_sorted(entries: Seq<Entry>) -> bool {
    forall|i: int, j: int| 0 <= i < j < entries.len() ==> key_lt(#[trigger] entries[i].0, #[trigger] entries[j].0)
}

/// Where a search for `target` may come to rest in `entries`: on an entry
/// whose key is not below `target`, and that either has the key `target`, is
/// the first entry, or follows an entry with a key below `target`; or on no
/// entry, when the last key is below `target`.
pub open spec fn seek_landing(entries: Seq<Entry>, target: Seq<u8>, valid: bool, pos: int) -> bool {
    if valid {
        &&& 0 <= pos < entries.len()
        &&& key_le(target, entries[pos].0)
        &&& pos > 0 ==> entries[pos].0 == target || key_lt(entries[pos - 1].0, target)
    } else {
        entries.len() == 0 || key_lt(entries[entries.len() - 1].0, target)
    }
}

/// In a sorted block a search comes to rest on the first entry whose key is
/// not below the target: every entry before it has a smaller key, every entry
/// from it on has not. It comes to rest on no entry only if all keys are smaller.
pub proof fn lemma_seek_finds_least(entries: Seq<Entry>, target: Seq<u8>, valid: bool, pos: int)
    requires
        strictly_sorted(entries),
        seek_landing(entries, target, valid, pos),
    ensures
        valid ==> forall|j: int| 0 <= j < pos ==> key_lt(#[trigger] entries[j].0, target),
        valid ==> forall|j: int| pos <= j < entries.len() ==> key_le(target, #[trigger] entries[j].0),
        !valid ==> forall|j: int| 0 <= j < entries.len() ==> key_lt(#[trigger] entries[j].0, target),
{
    if valid {
        assert forall|j: int| 0 <= j < pos implies key_lt(#[trigger] entries[j].0, target) by {
            if entries[pos].0 == target {
                assert(key_lt(entries[j].0, entries[pos].0));
            } else if j < pos - 1 {
                assert(key_lt(entries[j].0, entries[pos - 1].0));
                lemma_key_lt_transitive(entries[j].0, entries[pos - 1].0, target);
            }
        }
        assert forall|j: int| pos <= j < entries.len() implies key_le(target, #[trigger] entries[j].0) by {
            if pos < j {
                assert(key_lt(entries[pos].0, entries[j].0));
                lemma_key_le_transitive(target, entries[pos].0, entries[j].0);
            }
        }
    } else {
        let last = entries.len() - 1;
        assert forall|j: int| 0 <= j < entries.len() implies key_lt(#[trigger] entries[j].0, target) by {
            if j < last {
                assert(key_lt(entries[j].0, entries[last].0));
                lemma_key_lt_transitive(entries[j].0, entries[last].0, target);
            }
        }
    }
}

/// The keys of `entries` do not go down from any entry to a later one; a
/// key may come several times.
pub open spec fn weakly_sorted(entries: Seq<Entry>) -> bool {
    forall|i: int, j: int| 0 <= i < j < entries.len() ==> key_le(#[trigger] entries[i].0, #[trigger] entries[j].0)
}

/// Where keys may repeat, a search still comes to rest on the least key that
/// is not below the target: no entry from there on has a smaller key than
/// the target, and no entry at all has a key between the target and the key
/// found. It comes to rest on no entry only if all keys are smaller.
pub proof fn lemma_seek_finds_least_key(entries: Seq<Entry>, target: Seq<u8>, valid: bool, pos: int)
    requires
        weakly_sorted(entries),
        seek_landing(entries, target, valid, pos),
    ensures
        valid ==> forall|j: int| pos <= j < entries.len() ==> key_le(target, #[trigger] entries[j].0),
        valid ==> forall|j: int|
            0 <= j < entries.len() && key_le(target, #[trigger] entries[j].0) ==> key_le(
                entries[pos].0,
                entries[j].0,
            ),
        !valid ==> forall|j: int| 0 <= j < entries.len() ==> key_lt(#[trigger] entries[j].0, target),
{
    if valid {
        assert forall|j: int| pos <= j < entries.len() implies key_le(target, #[trigger] entries[j].0) by {
            if pos < j {
                assert(key_le(entries[pos].0, entries[j].0));
                lemma_key_le_transitive(target, entries[pos].0, entries[j].0);
            }
        }
        assert forall|j: int|
            0 <= j < entries.len() && key_le(target, #[trigger] entries[j].0) implies key_le(
            entries[pos].0,
            entries[j].0,
        ) by {
            if j > pos {
                assert(key_le(entries[pos].0, entries[j].0));
            } else if j < pos {
                if entries[pos].0 != target {
                    if j < pos - 1 {
                        assert(key_le(entries[j].0, entries[pos - 1].0));
                    }
                    lemma_key_le_transitive(entries[j].0, entries[pos - 1].0, target);
                    lemma_key_trichotomy(entries[j].0, target);
                }
            }
        }
    } else {
        let last = entries.len() - 1;
        assert forall|j: int| 0 <= j < entries.len() implies key_lt(#[trigger] entries[j].0, target) by {
            if j < last {
                assert(key_le(entries[j].0, entries[last].0));
                lemma_key_le_transitive(entries[j].0, entries[last].0, target);
            }
        }
    }
}

/// The first index at or behind `i` whose entry has a key that is not below
/// `key`; the length of `entries` if there is none.
pub open spec fn lower_bound_from(entries: Seq<Entry>, key: Seq<u8>, i: int) -> int
    decreases entries.len() - i,
{
    if 0 <= i < entries.len() && key_lt(entries[i].0, key) {
        lower_bound_from(entries, key, i + 1)
    } else {
        i
    }
}

/// The number of entries at the front of `entries` whose keys are below
/// `key`. In sorted entries this is the place of the least key that is not
/// below `key`.
pub open spec fn lower_bound(entries: Seq<Entry>, key: Seq<u8>) -> int {
    lower_bound_from(entries, key, 0)
}

/// The place in front of which all keys are below `key`, and whose own key is
/// not, is the lower bound.
pub proof fn lemma_lower_bound_is(entries: Seq<Entry>, key: Seq<u8>, p: int)
    requires
        0 <= p <= entries.len(),
        forall|j: int| 0 <= j < p ==> key_lt(#[trigger] entries[j].0, key),
        p < entries.len() ==> !key_lt(entries[p].0, key),
    ensures
        lower_bound(entries, key) == p,
{
    lemma_lower_bound_from(entries, key, p, 0);
}

/// The same, for the search from `i` on.
proof fn lemma_lower_bound_from(entries: Seq<Entry>, key: Seq<u8>, p: int, i: int)
    requires
        0 <= i <= p <= entries.len(),
        forall|j: int| 0 <= j < p ==> key_lt(#[trigger] entries[j].0, key),
        p < entries.len() ==> !key_lt(entries[p].0, key),
    ensures
        lower_bound_from(entries, key, i) == p,
    decreases p - i,
{
    if i < p {
        assert(key_lt(entries[i].0, key));
        lemma_lower_bound_from(entries, key, p, i + 1);
    }
}

/// The lower bound lies within the entries, and every entry in front of it
/// has a key below `key`; in sorted entries no entry from it on has.
pub proof fn lemma_lower_bound_splits(entries: Seq<Entry>, key: Seq<u8>)
    ensures
        0 <= lower_bound(entries, key) <= entries.len(),
        forall|j: int| 0 <= j < lower_bound(entries, key) ==> key_lt(#[trigger] entries[j].0, key),
        strictly_sorted(entries) ==> forall|j: int|
            lower_bound(entries, key) <= j < entries.len() ==> key_le(key, #[trigger] entries[j].0),
{
    lemma_lower_bound_from_splits(entries, key, 0);
    let p = lower_bound(entries, key);
    if strictly_sorted(entries) {
        assert forall|j: int| p <= j < entries.len() implies key_le(key, #[trigger] entries[j].0) by {
            crate::key::lemma_key_le_not_lt(key, entries[p].0);
            if p < j {
                assert(key_lt(entries[p].0, entries[j].0));
                lemma_key_le_transitive(key, entries[p].0, entries[j].0);
            }
        }
    }
}

/// What the search from `i` on passes over, and where it stops.
proof fn lemma_lower_bound_from_splits(entries: Seq<Entry>, key: Seq<u8>, i: int)
    requires
        0 <= i <= entries.len(),
    ensures
        i <= lower_bound_from(entries, key, i) <= entries.len(),
        forall|j: int| i <= j < lower_bound_from(entries, key, i) ==> key_lt(#[trigger] entries[j].0, key),
        lower_bound_from(entries, key, i) < entries.len() ==> !key_lt(
            entries[lower_bound_from(entries, key, i)].0,
            key,
        ),
    decreases entries.len() - i,
{
    if i < entries.len() && key_lt(entries[i].0, key) {
        lemma_lower_bound_from_splits(entries, key, i + 1);
    }
}

/// In sorted entries a search comes to rest at the lower bound: on the least
/// key that is not below the target, or nowhere if there is none.
pub proof fn lemma_seek_lands_on_lower_bound(entries: Seq<Entry>, target: Seq<u8>, valid: bool, pos: int)
    requires
        strictly_sorted(entries),
        seek_landing(entries, target, valid, pos),
    ensures
        valid ==> pos == lower_bound(entries, target) && pos < entries.len(),
        !valid ==> lower_bound(entries, target) == entries.len(),
{
    lemma_seek_finds_least(entries, target, valid, pos);
    if valid {
        crate::key::lemma_key_le_not_lt(target, entries[pos].0);
        lemma_lower_bound_is(entries, target, pos);
    } else {
        lemma_lower_bound_is(entries, target, entries.len() as int);
    }
}

/// Walks over the entries of one block.
pub struct BlockIterator {
    /// The block that is walked over.
    block: Arc<Block>,
    /// The key of the current entry; empty when there is none.
    key: Vec<u8>,
    /// Where the value of the current entry begins and ends in the block's data.
    value_range: (usize, usize),
    /// Index of the current entry.
    idx: usize,
}

impl BlockIterator {
    /// The iterator's key and value range are those of the entry it stands on.
    pub closed spec fn wf(&self) -> bool {
        &&& self.block.wf()
        &&& self.value_range.0 <= self.value_range.1 <= self.block.data@.len()
        &&& self.key@.len() > 0 ==> {
            &&& self.idx < self.block.offsets@.len()
            &&& self.key@ == key_at(self.block.data@, self.block.offsets@[self.idx as int] as int)
            &&& self.value_range.0 == value_start(
                self.block.data@,
                self.block.offsets@[self.idx as int] as int,
            )
            &&& self.value_range.1 == entry_end(
                self.block.data@,
                self.block.offsets@[self.idx as int] as int,
            )
        }
    }

    /// The entries of the block that is walked over.
    pub closed spec fn entries(&self) -> Seq<Entry> {
        self.block@
    }

    /// Whether the iterator stands on an entry.
    pub closed spec fn valid(&self) -> bool {
        self.key@.len() > 0
    }

    /// Index of the entry that the iterator stands on, if it stands on one.
    pub closed spec fn position(&self) -> int {
        self.idx as int
    }

    /// The entries from the current one on; none once the iterator is invalid.
    pub open spec fn rest(&self) -> Seq<Entry> {
        if self.valid() {
            self.entries().skip(self.position())
        } else {
            Seq::empty()
        }
    }

    /// A valid iterator stands on an entry of its block.
    pub proof fn lemma_position_in_range(&self)
        requires
            self.wf(),
            self.valid(),
        ensures
            0 <= self.position() < self.entries().len(),
            self.rest().len() > 0,
            self.rest()[0] == self.entries()[self.position()],
    {
    }

    /// An iterator over `block` that stands on no entry yet.
    fn new(block: Arc<Block>) -> (it: Self)
        ensures
            it.wf(),
            !it.valid(),
            it.entries() == block@,
    {
        proof {
            use_type_invariant(&*block);
        }
        Self { block, key: Vec::new(), value_range: (0, 0), idx: 0 }
    }

    /// Creates an iterator on the first entry of `block`; on none if the block is empty.
    pub fn create_and_seek_to_first(block: Arc<Block>) -> (it: Self)
        ensures
            it.wf(),
            it.entries() == block@,
            it.valid() == (block@.len() > 0),
            it.valid() ==> it.position() == 0,
            it.rest() == block@,
    {
        let mut iter = Self::new(block);
        iter.seek_to_first();
        assert(iter.rest() =~= block@);
        iter
    }

    /// Creates an iterator on the first entry of `block` whose key is not
    /// below `key`; on none if there is no such entry.
    pub fn create_and_seek_to_key(block: Arc<Block>, key: &[u8]) -> (it: Self)
        ensures
            it.wf(),
            it.entries() == block@,
            seek_landing(it.entries(), key@, it.valid(), it.position()),
    {
        let mut iter = Self::new(block);
        iter.seek_to_key(key);
        iter
    }

    /// The key of the current entry; the empty string when there is none.
    pub fn key(&self) -> (k: &[u8])
        requires
            self.wf(),
        ensures
            self.valid() ==> 0 <= self.position() < self.entries().len() && k@ == self.entries()[self.position()].0,
            !self.valid() ==> k@.len() == 0,
    {
        self.key.as_slice()
    }

    /// The value of the current entry.
    pub fn value(&self) -> (v: &[u8])
        requires
            self.wf(),
        ensures
            self.valid() ==> 0 <= self.position() < self.entries().len() && v@ == self.entries()[self.position()].1,
    {
        vstd::slice::slice_subrange(self.block.data.as_slice(), self.value_range.0, self.value_range.1)
    }

    /// Whether the iterator stands on an entry.
    pub fn is_valid(&self) -> (b: bool)
        ensures
            b == self.valid(),
    {
        !self.key.is_empty()
    }

    /// Moves to the first entry of the block; to none if the block is empty.
    pub fn seek_to_first(&mut self)
        requires
            old(self).wf(),
        ensures
            final(self).wf(),
            final(self).entries() == old(self).entries(),
            final(self).valid() == (final(self).entries().len() > 0),
            final(self).valid() ==> final(self).position() == 0,
            final(self).rest() == final(self).entries(),
    {
        assert(self.entries().skip(0) =~= self.entries());
        if self.block.offsets.len() == 0 {
            self.invalidate();
        } else {
            self.seek_to_idx(0);
        }
    }

    /// Moves to the next entry; behind the last entry the iterator becomes
    /// invalid, and stays so.
    pub fn next(&mut self)
        requires
            old(self).wf(),
        ensures
            final(self).wf(),
            final(self).entries() == old(self).entries(),
            final(self).valid() == (old(self).valid() && old(self).position() + 1 < old(self).entries().len()),
            final(self).valid() ==> final(self).position() == old(self).position() + 1,
            final(self).rest() == tail(old(self).rest()),
    {
        if !self.key.is_empty() && self.idx + 1 < self.block.offsets.len() {
            let i: usize = self.idx + 1;
            self.seek_to_idx(i);
            assert(self.rest() =~= tail(old(self).rest()));
        } else {
            self.invalidate();
            assert(self.rest() =~= tail(old(self).rest()));
        }
    }

    /// Moves to the first entry whose key is not below `key`, by binary
    /// search; the iterator becomes invalid if every key is below `key`.
    pub fn seek_to_key(&mut self, key: &[u8])
        requires
            old(self).wf(),
        ensures
            final(self).wf(),
            final(self).entries() == old(self).entries(),
            seek_landing(final(self).entries(), key@, final(self).valid(), final(self).position()),
    {
        let n: usize = self.block.offsets.len();
        let mut begin: usize = 0;
        let mut end: usize = n;
        while begin < end
            invariant
                self.wf(),
                self.entries() == old(self).entries(),
                n == self.entries().len(),
                0 <= begin <= end <= n,
                begin > 0 ==> key_lt(self.entries()[begin - 1].0, key@),
                end < n ==> key_lt(key@, self.entries()[end as int].0),
            decreases end - begin,
        {
            let mid: usize = begin + (end - begin) / 2;
            proof {
                assert(entry_chained(self.block.data@, self.block.offsets@, mid as int));
                assert(entry_chained(self.block.data@, self.block.offsets@, 0));
                lemma_key_trichotomy(self.entries()[mid as int].0, key@);
            }
            let mid_key: Vec<u8> = self.get_key_bases_on_offset(self.block.offsets[mid] as usize);
            if key_equal(mid_key.as_slice(), key) {
                self.seek_to_idx(mid);
                return;
            }
            if key_less(mid_key.as_slice(), key) {
                begin = mid + 1;
            } else {
                end = mid;
            }
        }
        if begin < n {
            self.seek_to_idx(begin);
        } else {
            self.invalidate();
        }
    }

    /// Leaves the iterator on no entry.
    fn invalidate(&mut self)
        requires
            old(self).wf(),
        ensures
            final(self).wf(),
            final(self).entries() == old(self).entries(),
            !final(self).valid(),
    {
        self.key = Vec::new();
        self.value_range = (0, 0);
    }

    /// Moves the iterator to entry `i`.
    fn seek_to_idx(&mut self, i: usize)
        requires
            old(self).wf(),
            i < old(self).entries().len(),
        ensures
            final(self).wf(),
            final(self).entries() == old(self).entries(),
            final(self).valid(),
            final(self).position() == i,
    {
        proof {
            assert(entry_chained(self.block.data@, self.block.offsets@, i as int));
            assert(entry_chained(self.block.data@, self.block.offsets@, 0));
            super::lemma_entries_valid(self.block.data@, self.block.offsets@, i as int);
        }
        let offset: usize = self.block.offsets[i] as usize;
        self.key = self.get_key_bases_on_offset(offset);
        self.value_range = self.get_value_range_bases_on_offset(offset);
        self.idx = i;
    }

    /// Puts together the key of the entry that starts at `offset`.
    fn get_key_bases_on_offset(&self, offset: usize) -> (k: Vec<u8>)
        requires
            entry_fits(self.block.data@, offset as int),
            entry_fits(self.block.data@, 0),
            offset <= 65535,
        ensures
            k@ == key_at(self.block.data@, offset as int),
    {
        let data: &[u8] = self.block.data.as_slice();
        proof {
            lemma_be16_at_bytes(data@, offset as int);
            lemma_be16_at_bytes(data@, 0);
        }
        let field: usize = read_u16(data, offset) as usize;
        if offset == 0 {
            copy_range(data, 2, 2 + field)
        } else {
            let overlap: usize = read_u16(data, offset + 2) as usize;
            let rest: usize = read_u16(data, offset + 4) as usize;
            let mut k: Vec<u8> = copy_range(data, 2, 2 + overlap);
            put_slice(&mut k, vstd::slice::slice_subrange(data, offset + 6, offset + 6 + rest));
            assert(k@ =~= key_at(data@, offset as int));
            k
        }
    }

    /// Finds where the value of the entry that starts at `offset` begins and ends.
    fn get_value_range_bases_on_offset(&self, offset: usize) -> (r: (usize, usize))
        requires
            entry_fits(self.block.data@, offset as int),
            offset <= 65535,
        ensures
            r.0 == value_start(self.block.data@, offset as int),
            r.1 == entry_end(self.block.data@, offset as int),
            r.0 <= r.1 <= self.block.data@.len(),
    {
        let data: &[u8] = self.block.data.as_slice();
        proof {
            lemma_be16_at_bytes(data@, offset as int);
        }
        let field: usize = read_u16(data, offset) as usize;
        let value_offset_begin: usize = offset + 2 + field;
        proof {
            lemma_be16_at_bytes(data@, value_offset_begin as int);
        }
        let value_len: usize = read_u16(data, value_offset_begin) as usize;
        (value_offset_begin + 2, value_offset_begin + 2 + value_len)
    }
}

} // verus!
