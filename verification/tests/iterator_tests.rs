use mini_lsm::error::StorageError;
use mini_lsm::iterators::merge_iterator::MergeIterator;
use mini_lsm::iterators::two_merge_iterator::TwoMergeIterator;
use mini_lsm::iterators::StorageIterator;
use mini_lsm::lsm_iterator::{FusedIterator, LsmIterator};
use mini_lsm::mem_table::{KeyBound, MemTable, MemTableIterator};
use mini_lsm::table::{FileObject, SsTable, SsTableBuilder, SsTableIterator};
use std::sync::Arc;

fn mem(entries: &[(&str, &str)]) -> MemTable {
    let mut t = MemTable::create(0);
    for (k, v) in entries {
        t.put(k.as_bytes(), v.as_bytes()).unwrap();
    }
    t
}

fn mem_iter(entries: &[(&str, &str)]) -> Box<MemTableIterator> {
    Box::new(mem(entries).scan(&KeyBound::Unbounded, &KeyBound::Unbounded))
}

fn sst(entries: &[(&str, &str)], block_size: usize) -> Arc<SsTable> {
    let mut b = SsTableBuilder::new(block_size);
    for (k, v) in entries {
        b.add(k.as_bytes(), v.as_bytes());
    }
    Arc::new(b.build(1, None).unwrap())
}

fn sst_iter(entries: &[(&str, &str)]) -> Box<SsTableIterator> {
    Box::new(SsTableIterator::create_and_seek_to_first(sst(entries, 32)).unwrap())
}

fn drain<I: StorageIterator>(it: &mut I) -> Vec<(String, String)> {
    let mut out = Vec::new();
    while it.is_valid() {
        out.push((
            String::from_utf8(it.key().to_vec()).unwrap(),
            String::from_utf8(it.value().to_vec()).unwrap(),
        ));
        it.next().unwrap();
    }
    out
}

fn pairs(entries: &[(&str, &str)]) -> Vec<(String, String)> {
    entries.iter().map(|(k, v)| (k.to_string(), v.to_string())).collect()
}

fn lsm(
    mems: Vec<Box<MemTableIterator>>,
    ssts: Vec<Box<SsTableIterator>>,
    upper: KeyBound,
) -> LsmIterator {
    let inner = TwoMergeIterator::create(MergeIterator::create(mems), MergeIterator::create(ssts)).unwrap();
    LsmIterator::new(inner, upper).unwrap()
}

#[test]
fn merge_with_duplicates() {
    let mut it = MergeIterator::create(vec![
        mem_iter(&[("k", "v0"), ("m", "vm0")]),
        mem_iter(&[("k", "v1"), ("l", "vl1")]),
    ]);
    assert_eq!(it.num_active_iterators(), 2);
    assert_eq!(drain(&mut it), pairs(&[("k", "v0"), ("l", "vl1"), ("m", "vm0")]));
    assert!(!it.is_valid());
    it.next().unwrap();
    assert!(!it.is_valid());
    assert_eq!(it.num_active_iterators(), 0);
}

#[test]
fn merge_prefers_the_lowest_index() {
    let mut it = MergeIterator::create(vec![
        mem_iter(&[("b", "0"), ("d", "0")]),
        mem_iter(&[("a", "1"), ("b", "1"), ("c", "1"), ("d", "1")]),
        mem_iter(&[("b", "2"), ("c", "2"), ("e", "2")]),
    ]);
    assert_eq!(
        drain(&mut it),
        pairs(&[("a", "1"), ("b", "0"), ("c", "1"), ("d", "0"), ("e", "2")])
    );
}

#[test]
fn merge_of_nothing_is_invalid() {
    let mut it = MergeIterator::<MemTableIterator>::create(vec![]);
    assert!(!it.is_valid());
    it.next().unwrap();
    assert!(!it.is_valid());
    let mut it = MergeIterator::create(vec![mem_iter(&[]), mem_iter(&[])]);
    assert!(!it.is_valid());
    assert_eq!(drain(&mut it), pairs(&[]));
}

#[test]
fn merge_over_tables() {
    let mut it = MergeIterator::create(vec![
        sst_iter(&[("a", "new"), ("c", "new"), ("e", "new"), ("g", "new")]),
        sst_iter(&[("a", "old"), ("b", "old"), ("c", "old"), ("d", "old"), ("h", "old")]),
    ]);
    assert_eq!(
        drain(&mut it),
        pairs(&[
            ("a", "new"),
            ("b", "old"),
            ("c", "new"),
            ("d", "old"),
            ("e", "new"),
            ("g", "new"),
            ("h", "old")
        ])
    );
}

#[test]
fn two_merge_prefers_the_first() {
    let a = MergeIterator::create(vec![mem_iter(&[("a", "A"), ("c", "A"), ("d", "A")])]);
    let b = MergeIterator::create(vec![sst_iter(&[("b", "B"), ("c", "B"), ("e", "B")])]);
    let mut it = TwoMergeIterator::create(a, b).unwrap();
    assert_eq!(it.num_active_iterators(), 2);
    assert_eq!(
        drain(&mut it),
        pairs(&[("a", "A"), ("b", "B"), ("c", "A"), ("d", "A"), ("e", "B")])
    );
    it.next().unwrap();
    assert!(!it.is_valid());
}

#[test]
fn two_merge_with_one_side_empty() {
    let a = MergeIterator::create(vec![mem_iter(&[])]);
    let b = MergeIterator::create(vec![mem_iter(&[("x", "1"), ("y", "2")])]);
    let mut it = TwoMergeIterator::create(a, b).unwrap();
    assert_eq!(drain(&mut it), pairs(&[("x", "1"), ("y", "2")]));
    let a = MergeIterator::create(vec![mem_iter(&[("x", "1"), ("y", "2")])]);
    let b = MergeIterator::create(vec![mem_iter(&[])]);
    let mut it = TwoMergeIterator::create(a, b).unwrap();
    assert_eq!(drain(&mut it), pairs(&[("x", "1"), ("y", "2")]));
}

#[test]
fn lsm_tombstone() {
    let mut it = lsm(
        vec![mem_iter(&[("x", "")])],
        vec![sst_iter(&[("x", "old"), ("y", "yv")])],
        KeyBound::Unbounded,
    );
    assert_eq!(drain(&mut it), pairs(&[("y", "yv")]));
}

#[test]
fn upper_bound_excluded() {
    let source = [("a", "1"), ("b", "2"), ("c", "3"), ("d", "4")];
    let mut it = lsm(vec![mem_iter(&source)], vec![], KeyBound::Excluded(b"c".to_vec()));
    assert_eq!(drain(&mut it), pairs(&[("a", "1"), ("b", "2")]));
    let mut it = lsm(vec![], vec![sst_iter(&source)], KeyBound::Excluded(b"c".to_vec()));
    assert_eq!(drain(&mut it), pairs(&[("a", "1"), ("b", "2")]));
}

#[test]
fn upper_bound_included() {
    let source = [("a", "1"), ("b", "2"), ("c", "3"), ("d", "4")];
    let mut it = lsm(vec![mem_iter(&source)], vec![], KeyBound::Included(b"c".to_vec()));
    assert_eq!(drain(&mut it), pairs(&[("a", "1"), ("b", "2"), ("c", "3")]));
    let mut it = lsm(vec![mem_iter(&source)], vec![], KeyBound::Included(b"bb".to_vec()));
    assert_eq!(drain(&mut it), pairs(&[("a", "1"), ("b", "2")]));
    it.next().unwrap();
    assert!(!it.is_valid());
}

#[test]
fn upper_bound_before_the_first_key() {
    let source = [("b", "2"), ("c", "3")];
    let mut it = lsm(vec![mem_iter(&source)], vec![], KeyBound::Excluded(b"b".to_vec()));
    assert!(!it.is_valid());
    assert_eq!(drain(&mut it), pairs(&[]));
    let it = lsm(vec![mem_iter(&source)], vec![], KeyBound::Included(b"a".to_vec()));
    assert!(!it.is_valid());
}

#[test]
fn tombstone_behind_the_bound_ends_the_scan() {
    let mut it = lsm(
        vec![mem_iter(&[("a", "1"), ("b", ""), ("c", ""), ("d", "4")])],
        vec![sst_iter(&[("b", "old"), ("e", "5")])],
        KeyBound::Included(b"c".to_vec()),
    );
    assert_eq!(it.num_active_iterators(), 2);
    assert_eq!(drain(&mut it), pairs(&[("a", "1")]));
}

#[test]
fn leading_tombstones_are_skipped() {
    let mut it = lsm(
        vec![mem_iter(&[("a", ""), ("b", ""), ("c", "3")])],
        vec![sst_iter(&[("a", "old"), ("b", "old"), ("d", "4")])],
        KeyBound::Unbounded,
    );
    assert!(it.is_valid());
    assert_eq!(it.key(), b"c");
    assert_eq!(it.value(), b"3");
    assert_eq!(drain(&mut it), pairs(&[("c", "3"), ("d", "4")]));
}

fn broken_table() -> Arc<SsTable> {
    let good = sst(&[("a", "1"), ("c", "3"), ("e", "5"), ("g", "7"), ("i", "9")], 32);
    assert!(good.num_of_blocks() >= 2);
    let first_len = good.read_block(0).unwrap().encode().len();
    let mut bytes = good.read_file(0, good.table_size()).unwrap();
    bytes[first_len] = 0xff;
    Arc::new(SsTable::open(2, None, FileObject::create(bytes)).unwrap())
}

#[test]
fn fused_iterator_latches_errors() {
    let table = broken_table();
    let first_block = table.read_block(0).unwrap().num_entries();
    let inner = SsTableIterator::create_and_seek_to_first(table).unwrap();
    let mut it = FusedIterator::new(inner);
    assert_eq!(it.num_active_iterators(), 1);
    for _ in 1..first_block {
        assert!(it.is_valid());
        it.next().unwrap();
    }
    assert!(it.is_valid());
    assert_eq!(it.next().err(), Some(StorageError::Format));
    assert!(!it.is_valid());
    assert_eq!(it.next().err(), Some(StorageError::Iterator));
    assert!(!it.is_valid());
    assert_eq!(it.next().err(), Some(StorageError::Iterator));
}

#[test]
fn fused_iterator_stays_quiet_at_the_end() {
    let mut it = FusedIterator::new(MergeIterator::create(vec![mem_iter(&[("a", "1")])]));
    assert!(it.is_valid());
    assert_eq!(it.key(), b"a");
    assert_eq!(it.value(), b"1");
    it.next().unwrap();
    assert!(!it.is_valid());
    it.next().unwrap();
    it.next().unwrap();
    assert!(!it.is_valid());
}

#[test]
fn errors_pass_through_the_merges() {
    let table = broken_table();
    let broken = Box::new(SsTableIterator::create_and_seek_to_first(table).unwrap());
    let healthy = sst_iter(&[("b", "2"), ("z", "26")]);
    let merged = MergeIterator::create(vec![broken, healthy]);
    let inner = TwoMergeIterator::create(MergeIterator::create(vec![mem_iter(&[])]), merged).unwrap();
    let mut it = FusedIterator::new(LsmIterator::new(inner, KeyBound::Unbounded).unwrap());
    let mut seen = Vec::new();
    let mut failed = None;
    while it.is_valid() {
        seen.push(it.key().to_vec());
        if let Err(e) = it.next() {
            failed = Some(e);
        }
    }
    assert_eq!(failed, Some(StorageError::Format));
    assert!(seen.len() >= 1);
    assert_eq!(seen[0], b"a".to_vec());
    assert_eq!(it.next().err(), Some(StorageError::Iterator));
}

#[test]
fn merge_of_iterators_moved_to_a_key() {
    let one = sst(&[("a", "1"), ("d", "1"), ("f", "1"), ("h", "1")], 32);
    let two = sst(&[("b", "2"), ("e", "2"), ("f", "2"), ("i", "2")], 32);
    for (probe, want) in [
        ("a", vec![("a", "1"), ("b", "2"), ("d", "1"), ("e", "2"), ("f", "1"), ("h", "1"), ("i", "2")]),
        ("c", vec![("d", "1"), ("e", "2"), ("f", "1"), ("h", "1"), ("i", "2")]),
        ("f", vec![("f", "1"), ("h", "1"), ("i", "2")]),
        ("g", vec![("h", "1"), ("i", "2")]),
        ("j", vec![]),
    ] {
        let mut it = MergeIterator::create(vec![
            Box::new(SsTableIterator::create_and_seek_to_key(one.clone(), probe.as_bytes()).unwrap()),
            Box::new(SsTableIterator::create_and_seek_to_key(two.clone(), probe.as_bytes()).unwrap()),
        ]);
        assert_eq!(drain(&mut it), pairs(&want), "merge from {}", probe);
    }
}

#[test]
fn largest_entry_goes_through_block_and_table() {
    let key = vec![0xabu8; 65535];
    let value = vec![0xcdu8; 65535];
    let mut b = SsTableBuilder::new(4096);
    b.add(b"a", b"small");
    b.add(&key, &value);
    b.add(&[0xac], b"after");
    let table = Arc::new(b.build(1, None).unwrap());
    assert_eq!(table.num_of_blocks(), 3);
    let mut it = SsTableIterator::create_and_seek_to_key(table.clone(), &key).unwrap();
    assert_eq!(it.key(), &key[..]);
    assert_eq!(it.value(), &value[..]);
    it.next().unwrap();
    assert_eq!(it.key(), &[0xac]);
    it.next().unwrap();
    assert!(!it.is_valid());
}
