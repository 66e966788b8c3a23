use mini_lsm::iterators::StorageIterator;
use mini_lsm::key::{
    common_prefix, is_valid_key, is_valid_value, key_equal, key_less, key_less_or_equal,
};
use mini_lsm::mem_table::{KeyBound, MemTable};
use mini_lsm::table::{SsTableBuilder, SsTableIterator};
use std::sync::Arc;

fn keys_of<I: StorageIterator>(it: &mut I) -> Vec<Vec<u8>> {
    let mut out = Vec::new();
    while it.is_valid() {
        out.push(it.key().to_vec());
        it.next().unwrap();
    }
    out
}

fn sample() -> MemTable {
    let mut t = MemTable::create(5);
    for k in ["d", "b", "a", "c", "e"] {
        t.put(k.as_bytes(), format!("v{}", k).as_bytes()).unwrap();
    }
    t
}

#[test]
fn put_get_overwrite() {
    let mut t = MemTable::create(11);
    assert!(t.is_empty());
    assert_eq!(t.id(), 11);
    assert_eq!(t.approximate_size(), 0);
    assert_eq!(t.get(b"k"), None);
    t.put(b"k", b"one").unwrap();
    assert!(!t.is_empty());
    assert_eq!(t.get(b"k"), Some(b"one".to_vec()));
    assert_eq!(t.approximate_size(), 4);
    t.put(b"k", b"three").unwrap();
    assert_eq!(t.get(b"k"), Some(b"three".to_vec()));
    assert_eq!(t.approximate_size(), 10);
    // a delete is a put of the empty value
    t.put(b"k", b"").unwrap();
    assert_eq!(t.get(b"k"), Some(Vec::new()));
    assert_eq!(t.approximate_size(), 11);
    assert_eq!(t.get(b"other"), None);
    assert!(t.sync_wal().is_ok());
}

#[test]
fn for_testing_forwards() {
    let mut t = MemTable::create(0);
    t.for_testing_put_slice(b"a", b"1").unwrap();
    t.for_testing_put_slice(b"b", b"2").unwrap();
    assert_eq!(t.for_testing_get_slice(b"a"), Some(b"1".to_vec()));
    let mut it = t.for_testing_scan_slice(&KeyBound::Unbounded, &KeyBound::Unbounded);
    assert_eq!(keys_of(&mut it), vec![b"a".to_vec(), b"b".to_vec()]);
}

#[test]
fn scan_ranges() {
    let t = sample();
    let all = |lo: KeyBound, hi: KeyBound| -> Vec<Vec<u8>> {
        let mut it = t.scan(&lo, &hi);
        keys_of(&mut it)
    };
    let k = |s: &[&str]| -> Vec<Vec<u8>> { s.iter().map(|x| x.as_bytes().to_vec()).collect() };
    assert_eq!(all(KeyBound::Unbounded, KeyBound::Unbounded), k(&["a", "b", "c", "d", "e"]));
    assert_eq!(
        all(KeyBound::Included(b"b".to_vec()), KeyBound::Included(b"d".to_vec())),
        k(&["b", "c", "d"])
    );
    assert_eq!(
        all(KeyBound::Excluded(b"b".to_vec()), KeyBound::Excluded(b"d".to_vec())),
        k(&["c"])
    );
    assert_eq!(all(KeyBound::Included(b"bb".to_vec()), KeyBound::Unbounded), k(&["c", "d", "e"]));
    assert_eq!(all(KeyBound::Unbounded, KeyBound::Excluded(b"a".to_vec())), k(&[]));
    assert_eq!(
        all(KeyBound::Included(b"d".to_vec()), KeyBound::Included(b"b".to_vec())),
        k(&[])
    );
    assert_eq!(
        all(KeyBound::Excluded(b"c".to_vec()), KeyBound::Excluded(b"c".to_vec())),
        k(&[])
    );
}

#[test]
fn scan_iterator_gives_values_and_ends() {
    let t = sample();
    let mut it = t.scan(&KeyBound::Included(b"d".to_vec()), &KeyBound::Unbounded);
    assert_eq!(it.num_active_iterators(), 1);
    assert!(it.is_valid());
    assert_eq!(it.key(), b"d");
    assert_eq!(it.value(), b"vd");
    it.next().unwrap();
    assert_eq!(it.key(), b"e");
    it.next().unwrap();
    assert!(!it.is_valid());
    it.next().unwrap();
    assert!(!it.is_valid());
}

#[test]
fn scan_sees_the_table_as_it_was() {
    let mut t = sample();
    let mut it = t.scan(&KeyBound::Unbounded, &KeyBound::Unbounded);
    t.put(b"aa", b"late").unwrap();
    assert_eq!(keys_of(&mut it).len(), 5);
    let mut it = t.scan(&KeyBound::Unbounded, &KeyBound::Unbounded);
    assert_eq!(keys_of(&mut it).len(), 6);
}

#[test]
fn flush_replays_in_key_order() {
    let t = sample();
    let mut builder = SsTableBuilder::new(32);
    t.flush(&mut builder).unwrap();
    let table = Arc::new(builder.build(1, None).unwrap());
    assert_eq!(table.first_key().as_slice(), b"a");
    assert_eq!(table.last_key().as_slice(), b"e");
    let mut it = SsTableIterator::create_and_seek_to_first(table).unwrap();
    let mut got = Vec::new();
    while it.is_valid() {
        got.push((it.key().to_vec(), it.value().to_vec()));
        it.next().unwrap();
    }
    let want: Vec<(Vec<u8>, Vec<u8>)> = ["a", "b", "c", "d", "e"]
        .iter()
        .map(|k| (k.as_bytes().to_vec(), format!("v{}", k).into_bytes()))
        .collect();
    assert_eq!(got, want);
}

#[test]
fn keys_order_lexicographically() {
    assert!(key_less(b"a", b"b"));
    assert!(key_less(b"a", b"aa"));
    assert!(key_less(b"", b"a"));
    assert!(!key_less(b"b", b"a"));
    assert!(!key_less(b"a", b"a"));
    assert!(key_less(b"ab", b"b"));
    assert!(key_less(&[0x7f], &[0x80]));
    assert!(key_less_or_equal(b"a", b"a"));
    assert!(key_less_or_equal(b"a", b"b"));
    assert!(!key_less_or_equal(b"b", b"a"));
    assert!(key_equal(b"abc", b"abc"));
    assert!(!key_equal(b"abc", b"abd"));
    assert!(!key_equal(b"abc", b"ab"));
    assert_eq!(common_prefix(b"apple", b"apply"), 4);
    assert_eq!(common_prefix(b"apple", b"approve"), 3);
    assert_eq!(common_prefix(b"apple", b"apple"), 5);
    assert_eq!(common_prefix(b"app", b"apple"), 3);
    assert_eq!(common_prefix(b"x", b"apple"), 0);
}

#[test]
fn keys_and_values_have_bounded_lengths() {
    assert!(!is_valid_key(b""));
    assert!(is_valid_key(b"k"));
    assert!(is_valid_key(&vec![7u8; 65535]));
    assert!(!is_valid_key(&vec![7u8; 65536]));
    assert!(is_valid_value(b""));
    assert!(is_valid_value(&vec![7u8; 65535]));
    assert!(!is_valid_value(&vec![7u8; 65536]));
}
