//! The in-memory table: an ordered map from keys to values that takes the
//! writes before they reach a sorted-string table. The map is a skip list of
//! the `crossbeam-skiplist` crate.

use crate::block::{strictly_sorted, Entry};
use crate::error::StorageError;
use crate::iterators::{counted, tail, StorageIterator};
use crate::key::{key_le, key_lt, valid_key, valid_value};
use crate::table::SsTableBuilder;
use bytes::Bytes;
use crossbeam_skiplist::SkipMap;
use vstd::prelude::*;

verus! {

/// `bytes::Bytes`, a shared byte string; the skip list holds its keys and
/// values in this form.
#[verifier::external_type_specification]
#[verifier::external_body]
pub struct ExBytes(Bytes);

/// `crossbeam_skiplist::SkipMap`, an ordered map.
#[verifier::external_type_specification]
#[verifier::external_body]
#[verifier::reject_recursive_types(K)]
#[verifier::reject_recursive_types(V)]
pub struct ExSkipMap<K, V>(SkipMap<K, V>);

/// The keys that a skip list holds, each with its value.
pub uninterp spec fn skipmap_entries(map: SkipMap<Bytes, Bytes>) -> Map<Seq<u8>, Seq<u8>>;

/// The map without entries.
pub open spec fn no_entries() -> Map<Seq<u8>, Seq<u8>> {
    Map::empty()
}

/// One end of a range of keys.
#[derive(Clone, Debug, PartialEq, Eq)]
pub enum KeyBound {
    /// The range has no end on this side.
    Unbounded,
    /// The range ends with this key.
    Included(Vec<u8>),
    /// The range ends just before this key.
    Excluded(Vec<u8>),
}

/// Whether `key` lies at or behind the lower end `bound`.
pub open spec fn above_lower(key: Seq<u8>, bound: KeyBound) -> bool {
    match bound {
        KeyBound::Unbounded => true,
        KeyBound::Included(b) => key_le(b@, key),
        KeyBound::Excluded(b) => key_lt(b@, key),
    }
}

/// Whether `key` lies at or before the upper end `bound`.
pub open spec fn below_upper(key: Seq<u8>, bound: KeyBound) -> bool {
    match bound {
        KeyBound::Unbounded => true,
        KeyBound::Included(b) => key_le(key, b@),
        KeyBound::Excluded(b) => key_lt(key, b@),
    }
}

/// `out` lists the entries of `map` whose keys lie between `lower` and
/// `upper`: each of them once, in the order of their keys, and nothing else.
pub open spec fn is_listing(
    out: Seq<Entry>,
    map: Map<Seq<u8>, Seq<u8>>,
    lower: KeyBound,
    upper: KeyBound,
) -> bool {
    &&& strictly_sorted(out)
    &&& forall|i: int|
        0 <= i < out.len() ==> {
            &&& map.dom().contains((#[trigger] out[i]).0)
            &&& map[out[i].0] == out[i].1
            &&& above_lower(out[i].0, lower)
            &&& below_upper(out[i].0, upper)
        }
    &&& forall|k: Seq<u8>|
        #![trigger map.dom().contains(k)]
        map.dom().contains(k) && above_lower(k, lower) && below_upper(k, upper) ==> exists|i: int|
            0 <= i < out.len() && (#[trigger] out[i]).0 == k
}

/// The byte strings that a list of owned pairs holds.
pub open spec fn pairs_view(items: Seq<(Vec<u8>, Vec<u8>)>) -> Seq<Entry> {
    Seq::new(items.len(), |i: int| (items[i].0@, items[i].1@))
}

/// `SkipMap::new`: a skip list without entries.
#[verifier::external_body]
fn skipmap_new() -> (list: SkipMap<Bytes, Bytes>)
    ensures
        skipmap_entries(list) == no_entries(),
{
    SkipMap::new()
}

/// `SkipMap::insert`: afterwards the list holds `value` under `key`, in place
/// of what it held under that key, and its other entries as before.
#[verifier::external_body]
fn skipmap_insert(map: &mut SkipMap<Bytes, Bytes>, key: &[u8], value: &[u8])
    ensures
        skipmap_entries(*final(map)) == skipmap_entries(*old(map)).insert(key@, value@),
{
    map.insert(Bytes::copy_from_slice(key), Bytes::copy_from_slice(value));
}

/// `SkipMap::get`: the value that the list holds under `key`, if it holds one.
#[verifier::external_body]
fn skipmap_get(map: &SkipMap<Bytes, Bytes>, key: &[u8]) -> (r: Option<Vec<u8>>)
    ensures
        match r {
            Some(v) => skipmap_entries(*map).dom().contains(key@) && v@ == skipmap_entries(*map)[key@],
            None => !skipmap_entries(*map).dom().contains(key@),
        },
{
    map.get(key).map(|e| e.value().to_vec())
}

/// `SkipMap::is_empty`: whether the list holds no entry.
#[verifier::external_body]
fn skipmap_is_empty(map: &SkipMap<Bytes, Bytes>) -> (r: bool)
    ensures
        r <==> forall|k: Seq<u8>| !(#[trigger] skipmap_entries(*map).dom().contains(k)),
{
    map.is_empty()
}

/// `SkipMap::range`, walked to its end: the entries whose keys lie between
/// the two bounds, in the order of their keys, which for byte strings is the
/// lexicographic one.
#[verifier::external_body]
fn skipmap_range(map: &SkipMap<Bytes, Bytes>, lower: &KeyBound, upper: &KeyBound) -> (out: Vec<
    (Vec<u8>, Vec<u8>),
>)
    ensures
        is_listing(pairs_view(out@), skipmap_entries(*map), *lower, *upper),
{
    let lo = match lower {
        KeyBound::Unbounded => std::ops::Bound::Unbounded,
        KeyBound::Included(k) => std::ops::Bound::Included(Bytes::copy_from_slice(k)),
        KeyBound::Excluded(k) => std::ops::Bound::Excluded(Bytes::copy_from_slice(k)),
    };
    let hi = match upper {
        KeyBound::Unbounded => std::ops::Bound::Unbounded,
        KeyBound::Included(k) => std::ops::Bound::Included(Bytes::copy_from_slice(k)),
        KeyBound::Excluded(k) => std::ops::Bound::Excluded(Bytes::copy_from_slice(k)),
    };
    map.range((lo, hi)).map(|e| (e.key().to_vec(), e.value().to_vec())).collect()
}

/// The in-memory table.
pub struct MemTable {
    map: SkipMap<Bytes, Bytes>,
    id: usize,
    approximate_size: usize,
}

impl View for MemTable {
    type V = Map<Seq<u8>, Seq<u8>>;

    /// The keys of the table, each with its value.
    closed spec fn view(&self) -> Map<Seq<u8>, Seq<u8>> {
        skipmap_entries(self.map)
    }
}

impl MemTable {
    /// Every key and value of the table is one that the formats can carry.
    pub open spec fn wf(&self) -> bool {
        forall|k: Seq<u8>| #[trigger] self@.dom().contains(k) ==> valid_key(k) && valid_value(self@[k])
    }

    /// The sum of the lengths of all keys and values ever put, as far as a
    /// `usize` can count.
    pub closed spec fn size(&self) -> int {
        self.approximate_size as int
    }

    /// The id that the table was created with.
    pub closed spec fn id_spec(&self) -> usize {
        self.id
    }

    /// Create a new mem-table.
    pub fn create(id: usize) -> (t: Self)
        ensures
            t.wf(),
            t@ == Map::<Seq<u8>, Seq<u8>>::empty(),
            t.size() == 0,
            t.id_spec() == id,
    {
        MemTable { map: skipmap_new(), id, approximate_size: 0 }
    }

    /// Puts a key-value pair, as `put` does.
    pub fn for_testing_put_slice(&mut self, key: &[u8], value: &[u8]) -> (r: Result<(), StorageError>)
        requires
            old(self).wf(),
            valid_key(key@),
            valid_value(value@),
        ensures
            r is Ok,
            final(self).wf(),
            final(self)@ == old(self)@.insert(key@, value@),
    {
        self.put(key, value)
    }

    /// Gets a value by key, as `get` does.
    pub fn for_testing_get_slice(&self, key: &[u8]) -> (r: Option<Vec<u8>>)
        ensures
            match r {
                Some(v) => self@.dom().contains(key@) && v@ == self@[key@],
                None => !self@.dom().contains(key@),
            },
    {
        self.get(key)
    }

    /// Scans a range of keys, as `scan` does.
    pub fn for_testing_scan_slice(&self, lower: &KeyBound, upper: &KeyBound) -> (it: MemTableIterator)
        ensures
            it.wf(),
            is_listing(it.rest(), self@, *lower, *upper),
    {
        self.scan(lower, upper)
    }

    /// Get a value by key.
    pub fn get(&self, key: &[u8]) -> (r: Option<Vec<u8>>)
        ensures
            match r {
                Some(v) => self@.dom().contains(key@) && v@ == self@[key@],
                None => !self@.dom().contains(key@),
            },
    {
        skipmap_get(&self.map, key)
    }

    /// Put a key-value pair into the mem-table: the table holds `value`
    /// under `key` afterwards, and the size counter has grown by the lengths
    /// of both. An empty value marks the key as deleted.
    pub fn put(&mut self, key: &[u8], value: &[u8]) -> (r: Result<(), StorageError>)
        requires
            old(self).wf(),
            valid_key(key@),
            valid_value(value@),
        ensures
            r is Ok,
            final(self).wf(),
            final(self)@ == old(self)@.insert(key@, value@),
            final(self).id_spec() == old(self).id_spec(),
            final(self).size() == if old(self).size() + key@.len() + value@.len() <= usize::MAX {
                old(self).size() + key@.len() + value@.len()
            } else {
                usize::MAX as int
            },
    {
        skipmap_insert(&mut self.map, key, value);
        self.approximate_size = self.approximate_size.saturating_add(key.len() + value.len());
        proof {
            assert(self@ == old(self)@.insert(key@, value@));
            assert forall|k: Seq<u8>| #[trigger] self@.dom().contains(k) implies valid_key(k) && valid_value(
                self@[k],
            ) by {
                if k != key@ {
                    assert(old(self)@.dom().contains(k));
                }
            }
        }
        Ok(())
    }

    /// Makes what was written durable. The table keeps no log, so there is
    /// nothing to do.
    pub fn sync_wal(&self) -> (r: Result<(), StorageError>)
        ensures
            r is Ok,
    {
        Ok(())
    }

    /// Get an iterator over a range of keys. The iterator gives the entries
    /// that the table holds in that range at the time of the call.
    pub fn scan(&self, lower: &KeyBound, upper: &KeyBound) -> (it: MemTableIterator)
        ensures
            it.wf(),
            is_listing(it.rest(), self@, *lower, *upper),
    {
        let items = skipmap_range(&self.map, lower, upper);
        let it = MemTableIterator { items, idx: 0 };
        assert(it.rest() =~= pairs_view(it.items@));
        it
    }

    /// Flush the mem-table to a table builder: adds every entry, in the order
    /// of the keys.
    pub fn flush(&self, builder: &mut SsTableBuilder) -> (r: Result<(), StorageError>)
        requires
            self.wf(),
            old(builder).wf(),
        ensures
            r is Ok,
            final(builder).wf(),
            final(builder).budget() == old(builder).budget(),
            exists|listing: Seq<Entry>|
                is_listing(listing, self@, KeyBound::Unbounded, KeyBound::Unbounded) && final(builder).entries()
                    == old(builder).entries() + listing,
    {
        let lower = KeyBound::Unbounded;
        let upper = KeyBound::Unbounded;
        let items = skipmap_range(&self.map, &lower, &upper);
        let ghost listing = pairs_view(items@);
        let mut i: usize = 0;
        assert(builder.entries() =~= old(builder).entries() + listing.subrange(0, 0));
        while i < items.len()
            invariant
                0 <= i <= items@.len(),
                self.wf(),
                builder.wf(),
                builder.budget() == old(builder).budget(),
                listing == pairs_view(items@),
                is_listing(listing, self@, KeyBound::Unbounded, KeyBound::Unbounded),
                builder.entries() == old(builder).entries() + listing.subrange(0, i as int),
            decreases items@.len() - i,
        {
            proof {
                assert(self@.dom().contains(listing[i as int].0));
            }
            builder.add(items[i].0.as_slice(), items[i].1.as_slice());
            proof {
                assert(listing.subrange(0, i as int).push(listing[i as int]) =~= listing.subrange(
                    0,
                    i as int + 1,
                ));
                assert(builder.entries() =~= old(builder).entries() + listing.subrange(0, i as int + 1));
            }
            i = i + 1;
        }
        assert(listing.subrange(0, listing.len() as int) =~= listing);
        Ok(())
    }

    /// The id that the table was created with.
    pub fn id(&self) -> (n: usize)
        ensures
            n == self.id_spec(),
    {
        self.id
    }

    /// The sum of the lengths of all keys and values ever put.
    pub fn approximate_size(&self) -> (n: usize)
        ensures
            n == self.size(),
    {
        self.approximate_size
    }

    /// Whether the table holds no entry.
    pub fn is_empty(&self) -> (r: bool)
        ensures
            r <==> self@.dom() =~= Set::<Seq<u8>>::empty(),
    {
        let r = skipmap_is_empty(&self.map);
        proof {
            if r {
                assert(self@.dom() =~= Set::<Seq<u8>>::empty());
            } else {
                let k = choose|k: Seq<u8>| self@.dom().contains(k);
                assert(self@.dom().contains(k));
            }
        }
        r
    }
}

/// An iterator over the entries that a table held in a range of keys when
/// the scan began.
pub struct MemTableIterator {
    /// The entries of the range, in the order of their keys.
    items: Vec<(Vec<u8>, Vec<u8>)>,
    /// Index of the current entry.
    idx: usize,
}

impl StorageIterator for MemTableIterator {
    /// The index lies within the entries, or just behind them.
    closed spec fn wf(&self) -> bool {
        self.idx <= self.items@.len()
    }

    /// The entries from the current one on.
    closed spec fn rest(&self) -> Seq<Entry> {
        pairs_view(self.items@).skip(self.idx as int)
    }

    /// A step over entries held in memory does not fail.
    open spec fn sound(&self) -> bool {
        true
    }

    fn value(&self) -> (v: &[u8]) {
        self.items[self.idx].1.as_slice()
    }

    fn key(&self) -> (k: &[u8]) {
        self.items[self.idx].0.as_slice()
    }

    fn is_valid(&self) -> (b: bool) {
        self.idx < self.items.len()
    }

    fn next(&mut self) -> (r: Result<(), StorageError>)
        ensures
            r is Ok,
    {
        if self.idx < self.items.len() {
            self.idx += 1;
        }
        assert(self.rest() =~= tail(old(self).rest()));
        assert forall|e: StorageError| #[trigger] self.fails_with(e) implies old(self).fails_with(e) by {}
        Ok(())
    }

    fn num_active_iterators(&self) -> (n: usize)
        ensures
            n == 1,
    {
        assert(counted(self.sources()) == 1);
        1
    }

    /// The iterator draws from one table.
    open spec fn sources(&self) -> nat {
        1
    }

    /// A step over entries held in memory fails with no error.
    open spec fn fails_with(&self, e: StorageError) -> bool {
        false
    }
}

} // verus!
