use mini_lsm::block::{Block, BlockBuilder, BlockIterator};
use mini_lsm::iterators::merge_iterator::MergeIterator;
use mini_lsm::iterators::two_merge_iterator::TwoMergeIterator;
use mini_lsm::iterators::StorageIterator;
use mini_lsm::lsm_iterator::LsmIterator;
use mini_lsm::mem_table::{KeyBound, MemTable, MemTableIterator};
use mini_lsm::table::{FileObject, SsTable, SsTableBuilder, SsTableIterator};
use std::collections::BTreeMap;
use std::sync::Arc;

/// A small generator of numbers that gives the same run every time.
struct Gen(u64);

impl Gen {
    fn next(&mut self) -> u64 {
        self.0 = self.0.wrapping_mul(6364136223846793005).wrapping_add(1442695040888963407);
        self.0 >> 33
    }

    fn bytes(&mut self, min: usize, max: usize, alphabet: u8) -> Vec<u8> {
        let len = min + (self.next() as usize) % (max - min + 1);
        (0..len).map(|_| b'a' + (self.next() % alphabet as u64) as u8).collect()
    }

    fn map(&mut self, n: usize, tombstones: bool) -> BTreeMap<Vec<u8>, Vec<u8>> {
        let mut m = BTreeMap::new();
        for _ in 0..n {
            let k = self.bytes(1, 6, 3);
            let v = if tombstones && self.next() % 4 == 0 { Vec::new() } else { self.bytes(0, 12, 26) };
            m.insert(k, v);
        }
        m
    }
}

fn drain<I: StorageIterator>(it: &mut I) -> Vec<(Vec<u8>, Vec<u8>)> {
    let mut out = Vec::new();
    while it.is_valid() {
        out.push((it.key().to_vec(), it.value().to_vec()));
        it.next().unwrap();
    }
    out
}

fn table_of(m: &BTreeMap<Vec<u8>, Vec<u8>>, block_size: usize) -> Arc<SsTable> {
    let mut b = SsTableBuilder::new(block_size);
    for (k, v) in m {
        b.add(k, v);
    }
    let built = b.build(1, None).unwrap();
    let bytes = built.read_file(0, built.table_size()).unwrap();
    Arc::new(SsTable::open(1, None, FileObject::create(bytes)).unwrap())
}

fn mem_of(m: &BTreeMap<Vec<u8>, Vec<u8>>) -> MemTable {
    let mut t = MemTable::create(0);
    for (k, v) in m {
        t.put(k, v).unwrap();
    }
    t
}

#[test]
fn blocks_round_trip_whatever_they_hold() {
    let mut g = Gen(1);
    for round in 0..50 {
        let m = g.map(1 + round % 20, true);
        let mut builder = BlockBuilder::new(1 << 15);
        for (k, v) in &m {
            assert!(builder.add(k, v));
        }
        let bytes = builder.build().encode();
        let block = Arc::new(Block::decode(&bytes).unwrap());
        assert_eq!(block.encode(), bytes);
        let mut it = BlockIterator::create_and_seek_to_first(block.clone());
        let mut got = Vec::new();
        while it.is_valid() {
            got.push((it.key().to_vec(), it.value().to_vec()));
            it.next();
        }
        let want: Vec<(Vec<u8>, Vec<u8>)> = m.iter().map(|(k, v)| (k.clone(), v.clone())).collect();
        assert_eq!(got, want);
        for _ in 0..10 {
            let probe = g.bytes(0, 6, 3);
            let it = BlockIterator::create_and_seek_to_key(block.clone(), &probe);
            match m.range(probe.clone()..).next() {
                Some((k, v)) => {
                    assert!(it.is_valid());
                    assert_eq!(it.key(), &k[..]);
                    assert_eq!(it.value(), &v[..]);
                }
                None => assert!(!it.is_valid()),
            }
        }
    }
}

#[test]
fn tables_round_trip_and_seek_like_a_sorted_map() {
    let mut g = Gen(2);
    for round in 0..40 {
        let m = g.map(1 + round * 3, true);
        let table = table_of(&m, 16 + (round % 5) * 24);
        let mut it = SsTableIterator::create_and_seek_to_first(table.clone()).unwrap();
        let want: Vec<(Vec<u8>, Vec<u8>)> = m.iter().map(|(k, v)| (k.clone(), v.clone())).collect();
        assert_eq!(drain(&mut it), want);
        for (k, _) in &m {
            assert!(table.may_contain_key(k));
        }
        for _ in 0..20 {
            let probe = g.bytes(1, 6, 3);
            let mut it = SsTableIterator::create_and_seek_to_key(table.clone(), &probe).unwrap();
            let want: Vec<(Vec<u8>, Vec<u8>)> =
                m.range(probe.clone()..).map(|(k, v)| (k.clone(), v.clone())).collect();
            assert_eq!(drain(&mut it), want);
        }
    }
}

#[test]
fn memtable_scans_like_a_sorted_map() {
    let mut g = Gen(3);
    for round in 0..30 {
        let m = g.map(1 + round * 2, true);
        let t = mem_of(&m);
        for _ in 0..20 {
            let a = g.bytes(1, 4, 3);
            let b = g.bytes(1, 4, 3);
            let (lo, hi) = if a <= b { (a, b) } else { (b, a) };
            let mut it = t.scan(&KeyBound::Included(lo.clone()), &KeyBound::Excluded(hi.clone()));
            let want: Vec<(Vec<u8>, Vec<u8>)> =
                m.range(lo.clone()..hi.clone()).map(|(k, v)| (k.clone(), v.clone())).collect();
            assert_eq!(drain(&mut it), want);
            let mut it = t.scan(&KeyBound::Excluded(lo.clone()), &KeyBound::Included(hi.clone()));
            let want: Vec<(Vec<u8>, Vec<u8>)> = m
                .iter()
                .filter(|(k, _)| **k > lo && **k <= hi)
                .map(|(k, v)| (k.clone(), v.clone()))
                .collect();
            assert_eq!(drain(&mut it), want);
        }
    }
}

#[test]
fn scans_over_layers_show_the_newest_live_values() {
    let mut g = Gen(4);
    for round in 0..30 {
        let layers: Vec<BTreeMap<Vec<u8>, Vec<u8>>> = (0..4).map(|_| g.map(1 + round, true)).collect();
        // layers 0 and 1 are in memory, 2 and 3 are tables; lower numbers are newer
        let mut model: BTreeMap<Vec<u8>, Vec<u8>> = BTreeMap::new();
        for layer in layers.iter().rev() {
            for (k, v) in layer {
                model.insert(k.clone(), v.clone());
            }
        }
        let upper = g.bytes(1, 4, 3);
        for bound in [
            KeyBound::Unbounded,
            KeyBound::Included(upper.clone()),
            KeyBound::Excluded(upper.clone()),
        ] {
            let mems: Vec<Box<MemTableIterator>> = layers[..2]
                .iter()
                .map(|m| Box::new(mem_of(m).scan(&KeyBound::Unbounded, &KeyBound::Unbounded)))
                .collect();
            let ssts: Vec<Box<SsTableIterator>> = layers[2..]
                .iter()
                .map(|m| Box::new(SsTableIterator::create_and_seek_to_first(table_of(m, 48)).unwrap()))
                .collect();
            let inner =
                TwoMergeIterator::create(MergeIterator::create(mems), MergeIterator::create(ssts)).unwrap();
            let mut it = LsmIterator::new(inner, bound.clone()).unwrap();
            let want: Vec<(Vec<u8>, Vec<u8>)> = model
                .iter()
                .filter(|(k, _)| match &bound {
                    KeyBound::Unbounded => true,
                    KeyBound::Included(u) => *k <= u,
                    KeyBound::Excluded(u) => *k < u,
                })
                .filter(|(_, v)| !v.is_empty())
                .map(|(k, v)| (k.clone(), v.clone()))
                .collect();
            assert_eq!(drain(&mut it), want);
        }
    }
}
