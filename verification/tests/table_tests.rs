use mini_lsm::block::Block;
use mini_lsm::error::StorageError;
use mini_lsm::iterators::StorageIterator;
use mini_lsm::lsm_storage::BlockCache;
use mini_lsm::table::bloom::{key_hash, Bloom};
use mini_lsm::table::{BlockMeta, FileObject, SsTable, SsTableBuilder, SsTableIterator};
use std::sync::Arc;

fn build_table(keys: &[&str], block_size: usize, cache: Option<Arc<BlockCache>>) -> SsTable {
    let mut builder = SsTableBuilder::new(block_size);
    for k in keys {
        builder.add(k.as_bytes(), format!("value-of-{}", k).as_bytes());
    }
    builder.build(7, cache).unwrap()
}

fn drain(it: &mut SsTableIterator) -> Vec<(Vec<u8>, Vec<u8>)> {
    let mut out = Vec::new();
    while it.is_valid() {
        out.push((it.key().to_vec(), it.value().to_vec()));
        it.next().unwrap();
    }
    out
}

fn expected(keys: &[&str]) -> Vec<(Vec<u8>, Vec<u8>)> {
    keys.iter()
        .map(|k| (k.as_bytes().to_vec(), format!("value-of-{}", k).into_bytes()))
        .collect()
}

#[test]
fn sst_binary_search_over_two_blocks() {
    // each entry takes 4 or 8 bytes of lengths, 1 of key, 10 of value: three fit into 64 bytes
    let table = Arc::new(build_table(&["a", "c", "e", "g", "i"], 64, None));
    assert_eq!(table.num_of_blocks(), 2);
    let it = SsTableIterator::create_and_seek_to_key(table.clone(), b"d").unwrap();
    assert!(it.is_valid());
    assert_eq!(it.key(), b"e");
    assert_eq!(it.value(), b"value-of-e");
    let it = SsTableIterator::create_and_seek_to_key(table.clone(), b"j").unwrap();
    assert!(!it.is_valid());
    let it = SsTableIterator::create_and_seek_to_key(table.clone(), b"a").unwrap();
    assert!(it.is_valid());
    assert_eq!(it.key(), b"a");
}

#[test]
fn sst_round_trip_through_bytes() {
    let keys = ["aa", "ab", "b", "ca", "cb", "d", "e", "fa", "fb", "g"];
    let table = build_table(&keys, 48, None);
    assert!(table.num_of_blocks() > 2);
    assert_eq!(table.first_key().as_slice(), b"aa");
    assert_eq!(table.last_key().as_slice(), b"g");
    assert_eq!(table.sst_id(), 7);
    let bytes = table_bytes(&table);
    assert_eq!(table.table_size(), bytes.len() as u64);
    let reopened = SsTable::open(9, None, FileObject::create(bytes)).unwrap();
    assert_eq!(reopened.sst_id(), 9);
    assert_eq!(reopened.num_of_blocks(), table.num_of_blocks());
    assert_eq!(reopened.first_key().as_slice(), b"aa");
    assert_eq!(reopened.last_key().as_slice(), b"g");
    let mut it = SsTableIterator::create_and_seek_to_first(Arc::new(reopened)).unwrap();
    assert_eq!(drain(&mut it), expected(&keys));
    let mut it = SsTableIterator::create_and_seek_to_first(Arc::new(table)).unwrap();
    assert_eq!(drain(&mut it), expected(&keys));
}

fn table_bytes(table: &SsTable) -> Vec<u8> {
    let size = table.table_size();
    let mut builder_bytes = Vec::new();
    // the file of a built table is read back block by block and trailer by trailer
    builder_bytes.extend_from_slice(&table.read_file(0, size).unwrap());
    builder_bytes
}

#[test]
fn sst_keys_come_in_order() {
    let keys = ["k01", "k02", "k03", "k04", "k05", "k06", "k07", "k08", "k09", "k10"];
    let table = Arc::new(build_table(&keys, 40, None));
    let mut it = SsTableIterator::create_and_seek_to_first(table).unwrap();
    let got = drain(&mut it);
    assert_eq!(got.len(), 10);
    for w in got.windows(2) {
        assert!(w[0].0 < w[1].0);
    }
    it.next().unwrap();
    assert!(!it.is_valid());
}

#[test]
fn sst_seek_every_position() {
    let keys = ["b", "d", "f", "h", "j", "l", "n"];
    let table = Arc::new(build_table(&keys, 40, None));
    assert!(table.num_of_blocks() >= 3);
    let probes = ["a", "b", "c", "d", "e", "f", "g", "h", "i", "j", "k", "l", "m", "n"];
    for p in probes {
        let mut it = SsTableIterator::create_and_seek_to_key(table.clone(), p.as_bytes()).unwrap();
        let want: Vec<&str> = keys.iter().copied().filter(|k| *k >= p).collect();
        assert_eq!(drain(&mut it), expected(&want), "seek to {}", p);
    }
    let mut it = SsTableIterator::create_and_seek_to_key(table.clone(), b"o").unwrap();
    assert!(!it.is_valid());
    it.seek_to_first().unwrap();
    assert_eq!(it.key(), b"b");
    it.seek_to_key(b"m").unwrap();
    assert_eq!(it.key(), b"n");
    assert_eq!(it.num_active_iterators(), 1);
}

#[test]
fn find_block_idx_names_the_covering_block() {
    let table = build_table(&["a", "c", "e", "g", "i"], 64, None);
    // blocks: [a, c, e] and [g, i]
    assert_eq!(table.find_block_idx(b"a"), 0);
    assert_eq!(table.find_block_idx(b"e"), 0);
    assert_eq!(table.find_block_idx(b"f"), 1);
    assert_eq!(table.find_block_idx(b"i"), 1);
    assert_eq!(table.find_block_idx(b"j"), 2);
    assert_eq!(table.find_block_idx(b"0"), 0);
}

#[test]
fn read_block_reports_errors() {
    let table = build_table(&["a", "c", "e", "g", "i"], 64, None);
    assert_eq!(table.read_block(0).unwrap().num_entries(), 3);
    assert_eq!(table.read_block(1).unwrap().num_entries(), 2);
    assert_eq!(table.read_block(2).err(), Some(StorageError::Io));
    assert_eq!(table.read_block_cached(2).err(), Some(StorageError::Io));
}

#[test]
fn cached_reads_give_the_blocks_of_the_table() {
    let cache: Arc<BlockCache> = Arc::new(BlockCache::new(16));
    let first = Arc::new(build_table(&["a", "c", "e", "g", "i"], 64, Some(cache.clone())));
    // a second table with the same id shares the cache and holds other blocks
    let second = Arc::new(build_table(&["m", "n", "o", "p", "q"], 64, Some(cache.clone())));
    for _ in 0..2 {
        let mut it = SsTableIterator::create_and_seek_to_first(first.clone()).unwrap();
        assert_eq!(drain(&mut it), expected(&["a", "c", "e", "g", "i"]));
        let mut it = SsTableIterator::create_and_seek_to_first(second.clone()).unwrap();
        assert_eq!(drain(&mut it), expected(&["m", "n", "o", "p", "q"]));
    }
    let b0 = first.read_block_cached(0).unwrap();
    assert_eq!(b0.encode(), first.read_block(0).unwrap().encode());
}

#[test]
fn open_rejects_what_is_no_table() {
    assert_eq!(
        SsTable::open(0, None, FileObject::create(vec![])).err(),
        Some(StorageError::Format)
    );
    assert_eq!(
        SsTable::open(0, None, FileObject::create(vec![0; 7])).err(),
        Some(StorageError::Format)
    );
    // offsets that point nowhere
    assert_eq!(
        SsTable::open(0, None, FileObject::create(vec![0xff; 16])).err(),
        Some(StorageError::Format)
    );
    // a trailer in order, and an index without blocks
    let no_blocks: Vec<u8> = vec![0, 0, 0, 0, 1, 0, 0, 0, 4];
    assert_eq!(
        SsTable::open(0, None, FileObject::create(no_blocks)).err(),
        Some(StorageError::Format)
    );
    assert_eq!(
        SsTable::open(0, None, FileObject::without_contents(100)).err(),
        Some(StorageError::Io)
    );
    let good = build_table(&["a", "b"], 4096, None);
    let mut bytes = table_bytes(&good);
    let len = bytes.len();
    bytes.truncate(len - 1);
    assert!(SsTable::open(0, None, FileObject::create(bytes)).is_err());
}

#[test]
fn table_file_layout_is_byte_exact() {
    let mut builder = SsTableBuilder::new(4096);
    builder.add(b"a", b"1");
    builder.add(b"ab", b"2");
    assert_eq!(builder.estimated_size(), 0);
    let table = builder.build(1, None).unwrap();
    let bytes = table_bytes(&table);
    let block: Vec<u8> = vec![
        0, 1, b'a', 0, 1, b'1', // first entry
        0, 5, 0, 1, 0, 1, b'b', 0, 1, b'2', // overlap 1, rest "b"
        0, 0, 0, 6, // offsets
        0, 2, // count
    ];
    let meta: Vec<u8> = vec![0, 0, 0, 0, 0, 1, b'a', 0, 2, b'a', b'b'];
    let mut want = block.clone();
    want.extend_from_slice(&meta);
    want.extend_from_slice(&[0, 0, 0, block.len() as u8]);
    let bloom_offset = want.len();
    assert_eq!(&bytes[..bloom_offset], &want[..]);
    assert_eq!(&bytes[bytes.len() - 4..], &[0, 0, 0, bloom_offset as u8]);
    let bloom = Bloom::decode(&bytes[bloom_offset..bytes.len() - 4]).unwrap();
    assert!(bloom.may_contain(key_hash(b"a")));
    assert!(bloom.may_contain(key_hash(b"ab")));
    assert!(table.may_contain_key(b"a"));
    assert!(table.may_contain_key(b"ab"));
    assert_eq!(Block::decode(&block).unwrap().num_entries(), 2);
}

#[test]
fn builder_without_entries_builds_nothing() {
    let builder = SsTableBuilder::new(64);
    assert_eq!(builder.build(0, None).err(), Some(StorageError::Format));
}

#[test]
fn estimated_size_counts_full_blocks() {
    let mut builder = SsTableBuilder::new(32);
    builder.add(b"k1", b"v1");
    assert_eq!(builder.estimated_size(), 0);
    // does not fit the block of 32 bytes: the first block is written out
    builder.add(b"k2", b"vvvvvvvvvvvvvv");
    assert_eq!(builder.estimated_size(), 8 + 2 + 2);
}

#[test]
fn block_meta_round_trip() {
    let metas = vec![
        BlockMeta { offset: 0, first_key: b"a".to_vec(), last_key: b"c".to_vec() },
        BlockMeta { offset: 258, first_key: b"dd".to_vec(), last_key: b"zzz".to_vec() },
    ];
    let mut buf = vec![9u8];
    BlockMeta::encode_block_meta(&metas, &mut buf);
    let want: Vec<u8> = vec![
        9, 0, 0, 0, 0, 0, 1, b'a', 0, 1, b'c', 0, 0, 1, 2, 0, 2, b'd', b'd', 0, 3, b'z', b'z', b'z',
    ];
    assert_eq!(buf, want);
    assert_eq!(BlockMeta::decode_block_meta(&buf[1..]).unwrap(), metas);
    assert_eq!(BlockMeta::decode_block_meta(&[]).unwrap(), vec![]);
    assert_eq!(BlockMeta::decode_block_meta(&buf[1..buf.len() - 1]).err(), Some(StorageError::Format));
    assert_eq!(BlockMeta::decode_block_meta(&[0, 0, 0, 0, 0, 0, 0, 1, b'x']).err(), Some(StorageError::Format));
}

#[test]
fn file_object_reads_ranges() {
    let f = FileObject::create(vec![1, 2, 3, 4, 5]);
    assert_eq!(f.size(), 5);
    assert_eq!(f.read(1, 3).unwrap(), vec![2, 3, 4]);
    assert_eq!(f.read(5, 0).unwrap(), Vec::<u8>::new());
    assert_eq!(f.read(3, 3).err(), Some(StorageError::Io));
    assert_eq!(f.read(u64::MAX, 2).err(), Some(StorageError::Io));
    let g = FileObject::without_contents(10);
    assert_eq!(g.size(), 10);
    assert_eq!(g.read(0, 1).err(), Some(StorageError::Io));
}

#[test]
fn meta_only_table_has_no_blocks() {
    let t = SsTable::create_meta_only(3, 1000, b"a".to_vec(), b"z".to_vec());
    assert_eq!(t.num_of_blocks(), 0);
    assert_eq!(t.table_size(), 1000);
    assert_eq!(t.first_key().as_slice(), b"a");
    assert_eq!(t.last_key().as_slice(), b"z");
    assert_eq!(t.sst_id(), 3);
    assert_eq!(t.max_ts(), 0);
    assert_eq!(t.find_block_idx(b"m"), 0);
    assert_eq!(SsTableIterator::create_and_seek_to_first(Arc::new(t)).err(), Some(StorageError::Io));
}

#[test]
fn iterator_reports_a_block_that_cannot_be_decoded() {
    let table = build_table(&["a", "c", "e", "g", "i"], 64, None);
    let mut bytes = table_bytes(&table);
    // the second block starts behind the first; its key length is made to run over
    let second = {
        let t = SsTable::open(0, None, FileObject::create(bytes.clone())).unwrap();
        t.read_block(0).unwrap().encode().len()
    };
    bytes[second] = 0xff;
    let broken = Arc::new(SsTable::open(0, None, FileObject::create(bytes)).unwrap());
    assert_eq!(broken.read_block(1).err(), Some(StorageError::Format));
    let mut it = SsTableIterator::create_and_seek_to_first(broken.clone()).unwrap();
    it.next().unwrap();
    it.next().unwrap();
    assert_eq!(it.key(), b"e");
    assert_eq!(it.next().err(), Some(StorageError::Format));
    assert!(!it.is_valid());
    assert_eq!(
        SsTableIterator::create_and_seek_to_key(broken, b"h").err(),
        Some(StorageError::Format)
    );
}

#[test]
fn bloom_has_no_false_negatives() {
    let hashes: Vec<u32> = (0..200u32).map(|i| key_hash(format!("key-{}", i).as_bytes())).collect();
    let bloom = Bloom::build_from_keys(&hashes, 10);
    for h in &hashes {
        assert!(bloom.may_contain(*h));
    }
    let mut buf = Vec::new();
    bloom.encode(&mut buf);
    let back = Bloom::decode(&buf).unwrap();
    for h in &hashes {
        assert!(back.may_contain(*h));
    }
    let misses = (1000..2000u32)
        .filter(|i| back.may_contain(key_hash(format!("other-{}", i).as_bytes())))
        .count();
    assert!(misses < 100);
    assert_eq!(Bloom::decode(&[]).err(), Some(StorageError::Format));
    // no bits set: nothing is let through
    let empty = Bloom::decode(&[0, 0, 0, 0, 3]).unwrap();
    assert!(!empty.may_contain(12345));
}

#[test]
fn key_hash_is_fnv1a() {
    assert_eq!(key_hash(b""), 0x811c9dc5);
    assert_eq!(key_hash(b"a"), 0xe40c292c);
    assert_eq!(key_hash(b"foobar"), 0xbf9cf968);
}

#[test]
fn bloom_bits_are_exact() {
    // one hash, ten bits to the key: 64 bits, 6 probes
    let mut buf = Vec::new();
    Bloom::build_from_keys(&[1], 10).encode(&mut buf);
    // the probes step by 1 << 15, which is 0 in 64 bits: all fall on bit 1
    assert_eq!(buf, vec![0b0000_0010, 0, 0, 0, 0, 0, 0, 0, 6]);
    let mut buf = Vec::new();
    Bloom::build_from_keys(&[0x0002_0003], 10).encode(&mut buf);
    // the probes step by 0x18001: bits 3, 4, 5, 6, 7 and 8
    assert_eq!(buf, vec![0b1111_1000, 0b0000_0001, 0, 0, 0, 0, 0, 0, 6]);
    // the number of probes follows the bits to the key
    let probes = |bits_per_key: usize| -> u8 {
        let mut buf = Vec::new();
        Bloom::build_from_keys(&[7], bits_per_key).encode(&mut buf);
        *buf.last().unwrap()
    };
    assert_eq!(probes(0), 1);
    assert_eq!(probes(1), 1);
    assert_eq!(probes(3), 2);
    assert_eq!(probes(10), 6);
    assert_eq!(probes(43), 29);
    assert_eq!(probes(44), 30);
    assert_eq!(probes(1000), 30);
    // the field grows with the keys
    let hashes: Vec<u32> = (0..100).collect();
    let mut buf = Vec::new();
    Bloom::build_from_keys(&hashes, 10).encode(&mut buf);
    assert_eq!(buf.len(), 125 + 1);
    let mut buf = Vec::new();
    Bloom::build_from_keys(&hashes, 3).encode(&mut buf);
    assert_eq!(buf.len(), 38 + 1);
}

#[test]
fn seek_goes_on_to_the_next_block() {
    // blocks [a, c, e] and [g, i]; the index is made to say that the first block ends with "f"
    let table = build_table(&["a", "c", "e", "g", "i"], 64, None);
    let mut bytes = table_bytes(&table);
    let len = bytes.len();
    let bloom_offset = u32::from_be_bytes([bytes[len - 4], bytes[len - 3], bytes[len - 2], bytes[len - 1]]) as usize;
    let meta_offset = u32::from_be_bytes([
        bytes[bloom_offset - 4],
        bytes[bloom_offset - 3],
        bytes[bloom_offset - 2],
        bytes[bloom_offset - 1],
    ]) as usize;
    // offset, length 1, "a", length 1, "e"
    assert_eq!(&bytes[meta_offset..meta_offset + 10], &[0, 0, 0, 0, 0, 1, b'a', 0, 1, b'e']);
    bytes[meta_offset + 9] = b'f';
    let patched = Arc::new(SsTable::open(0, None, FileObject::create(bytes)).unwrap());
    assert_eq!(patched.find_block_idx(b"f"), 0);
    let it = SsTableIterator::create_and_seek_to_key(patched.clone(), b"f").unwrap();
    assert!(it.is_valid());
    assert_eq!(it.key(), b"g");
    let it = SsTableIterator::create_and_seek_to_key(patched, b"e").unwrap();
    assert_eq!(it.key(), b"e");
}

#[test]
fn seek_in_a_table_with_repeated_keys() {
    let mut builder = SsTableBuilder::new(40);
    let keys = ["a", "b", "b", "b", "b", "b", "c", "c", "d"];
    for (i, k) in keys.iter().enumerate() {
        builder.add(k.as_bytes(), format!("{}", i).as_bytes());
    }
    let table = Arc::new(builder.build(1, None).unwrap());
    assert!(table.num_of_blocks() >= 3);
    for (probe, least) in [("a", "a"), ("b", "b"), ("bb", "c"), ("c", "c"), ("cc", "d"), ("d", "d")] {
        let mut it = SsTableIterator::create_and_seek_to_key(table.clone(), probe.as_bytes()).unwrap();
        assert!(it.is_valid());
        assert_eq!(it.key(), least.as_bytes(), "seek to {}", probe);
        let mut last = it.key().to_vec();
        while it.is_valid() {
            assert!(last.as_slice() <= it.key());
            last = it.key().to_vec();
            it.next().unwrap();
        }
        assert_eq!(last, b"d".to_vec());
    }
    let it = SsTableIterator::create_and_seek_to_key(table, b"e").unwrap();
    assert!(!it.is_valid());
}

#[test]
fn opened_table_knows_its_file_and_cache() {
    let cache: Arc<BlockCache> = Arc::new(BlockCache::new(4));
    let built = build_table(&["a", "b"], 4096, Some(cache.clone()));
    let bytes = table_bytes(&built);
    assert_eq!(built.table_size(), bytes.len() as u64);
    let opened = SsTable::open(5, Some(cache.clone()), FileObject::create(bytes.clone())).unwrap();
    assert_eq!(opened.table_size(), bytes.len() as u64);
    assert_eq!(opened.num_of_blocks(), 1);
    assert_eq!(opened.read_file(0, bytes.len() as u64).unwrap(), bytes);
    assert_eq!(opened.read_file(1, bytes.len() as u64).err(), Some(StorageError::Io));
    assert!(cache.get(&(5u64, 0u32)).is_none());
    opened.read_block_cached(0).unwrap();
    assert!(cache.get(&(5u64, 0u32)).is_some());
    let other = SsTable::create_meta_only(1, 9, b"a".to_vec(), b"b".to_vec());
    assert_eq!(other.read_file(0, 0).err(), Some(StorageError::Io));
}
