use mini_lsm::block::{Block, BlockBuilder, BlockIterator};
use mini_lsm::error::StorageError;
use std::sync::Arc;

fn collect(block: Block) -> Vec<(Vec<u8>, Vec<u8>)> {
    let mut out = Vec::new();
    let mut it = BlockIterator::create_and_seek_to_first(Arc::new(block));
    while it.is_valid() {
        out.push((it.key().to_vec(), it.value().to_vec()));
        it.next();
    }
    out
}

fn pair(k: &str, v: &str) -> (Vec<u8>, Vec<u8>) {
    (k.as_bytes().to_vec(), v.as_bytes().to_vec())
}

#[test]
fn block_add_until_full() {
    let mut builder = BlockBuilder::new(32);
    assert!(builder.is_empty());
    assert!(builder.add(b"k1", b"v1"));
    assert!(!builder.is_empty());
    assert!(!builder.add(b"k2", b"vvvvvvvvvvvvvv"));
    let block = builder.build();
    assert_eq!(collect(block), vec![pair("k1", "v1")]);
}

#[test]
fn block_prefix_compression_round_trip() {
    let mut builder = BlockBuilder::new(4096);
    assert!(builder.add(b"apple", b"1"));
    assert!(builder.add(b"apply", b"2"));
    assert!(builder.add(b"approve", b"3"));
    let block = builder.build();
    let bytes = block.encode();
    let decoded = Block::decode(&bytes).unwrap();
    assert_eq!(
        collect(decoded),
        vec![pair("apple", "1"), pair("apply", "2"), pair("approve", "3")]
    );
}

#[test]
fn block_encoding_is_byte_exact() {
    let mut builder = BlockBuilder::new(4096);
    assert!(builder.add(b"apple", b"1"));
    assert!(builder.add(b"apply", b"2"));
    let bytes = builder.build().encode();
    let expected: Vec<u8> = vec![
        0, 5, b'a', b'p', b'p', b'l', b'e', 0, 1, b'1', // first entry, key in full
        0, 5, 0, 4, 0, 1, b'y', 0, 1, b'2', // key field of 4 + 1 bytes: overlap 4, rest "y"
        0, 0, 0, 10, // offsets
        0, 2, // number of entries
    ];
    assert_eq!(bytes, expected);
}

#[test]
fn block_decode_rejects_malformed() {
    assert_eq!(Block::decode(&[]).err(), Some(StorageError::Format));
    assert_eq!(Block::decode(&[0]).err(), Some(StorageError::Format));
    // no entries
    assert_eq!(Block::decode(&[0, 0]).err(), Some(StorageError::Format));
    // more offsets announced than there are bytes
    assert_eq!(Block::decode(&[0, 0, 0, 5]).err(), Some(StorageError::Format));
    // an entry with an empty key
    assert_eq!(Block::decode(&[0, 0, 0, 0, 0, 0, 0, 1]).err(), Some(StorageError::Format));
    // a value that runs over the end of the entries
    assert_eq!(
        Block::decode(&[0, 1, b'k', 0, 9, b'v', 0, 0, 0, 1]).err(),
        Some(StorageError::Format)
    );
    // first offset not zero
    assert_eq!(
        Block::decode(&[0, 1, b'k', 0, 1, b'v', 0, 1, 0, 1]).err(),
        Some(StorageError::Format)
    );
    // bytes left over behind the last entry
    assert_eq!(
        Block::decode(&[0, 1, b'k', 0, 1, b'v', 7, 0, 0, 0, 1]).err(),
        Some(StorageError::Format)
    );
    // an overlap longer than the first key
    assert_eq!(
        Block::decode(&[0, 1, b'k', 0, 0, 0, 5, 0, 2, 0, 1, b'x', 0, 0, 0, 0, 0, 5, 0, 2]).err(),
        Some(StorageError::Format)
    );
    // a well-formed block of one entry
    let ok = Block::decode(&[0, 1, b'k', 0, 1, b'v', 0, 0, 0, 1]).unwrap();
    assert_eq!(ok.num_entries(), 1);
    assert_eq!(collect(ok), vec![pair("k", "v")]);
}

#[test]
fn block_decode_accepts_uncompressed_later_key() {
    // second key stored with overlap 0 and its bytes in full
    let bytes: Vec<u8> = vec![
        0, 1, b'a', 0, 0, 0, 5, 0, 0, 0, 1, b'b', 0, 1, b'x', 0, 0, 0, 5, 0, 2,
    ];
    let block = Block::decode(&bytes).unwrap();
    assert_eq!(collect(block), vec![pair("a", ""), pair("b", "x")]);
}

#[test]
fn empty_builder_takes_oversized_entry() {
    let mut builder = BlockBuilder::new(4);
    assert!(builder.add(b"a-long-key", b"a-long-value"));
    assert!(!builder.add(b"b", b""));
    let block = builder.build();
    let bytes = block.encode();
    assert_eq!(bytes.len(), 4 + 10 + 12 + 2 + 2);
    assert_eq!(collect(Block::decode(&bytes).unwrap()), vec![pair("a-long-key", "a-long-value")]);
}

#[test]
fn builder_size_rule_is_exact() {
    // one entry of 4 + 2 + 2 bytes; the next is taken as 2 + 8 + 2 + value on top of 2 + 8
    let mut builder = BlockBuilder::new(32);
    assert!(builder.add(b"k1", b"v1"));
    assert!(builder.add(b"k2", b"0123456789"));
    let mut builder = BlockBuilder::new(32);
    assert!(builder.add(b"k1", b"v1"));
    assert!(!builder.add(b"k2", b"0123456789a"));
}

#[test]
fn block_seek_positions() {
    let mut builder = BlockBuilder::new(4096);
    for k in ["b", "d", "f", "h"] {
        assert!(builder.add(k.as_bytes(), k.as_bytes()));
    }
    let block = Arc::new(builder.build());
    let it = BlockIterator::create_and_seek_to_key(block.clone(), b"a");
    assert!(it.is_valid());
    assert_eq!(it.key(), b"b");
    let it = BlockIterator::create_and_seek_to_key(block.clone(), b"d");
    assert_eq!(it.key(), b"d");
    assert_eq!(it.value(), b"d");
    let it = BlockIterator::create_and_seek_to_key(block.clone(), b"e");
    assert_eq!(it.key(), b"f");
    let it = BlockIterator::create_and_seek_to_key(block.clone(), b"h");
    assert_eq!(it.key(), b"h");
    let mut it = BlockIterator::create_and_seek_to_key(block.clone(), b"i");
    assert!(!it.is_valid());
    assert_eq!(it.key(), b"");
    it.next();
    assert!(!it.is_valid());
    it.seek_to_first();
    assert_eq!(it.key(), b"b");
    it.seek_to_key(b"g");
    assert_eq!(it.key(), b"h");
    it.next();
    assert!(!it.is_valid());
}

#[test]
fn block_iterator_on_empty_block() {
    let block = Arc::new(BlockBuilder::new(16).build());
    assert_eq!(block.num_entries(), 0);
    let it = BlockIterator::create_and_seek_to_first(block.clone());
    assert!(!it.is_valid());
    let it = BlockIterator::create_and_seek_to_key(block, b"a");
    assert!(!it.is_valid());
}

#[test]
fn errors_describe_themselves() {
    assert_eq!(StorageError::Format.describe(), "malformed block, index or table");
    assert_eq!(StorageError::Io.describe(), "read beyond the end of the file");
    assert_eq!(StorageError::Iterator.describe(), "has errored, can't do next()");
    assert_eq!(StorageError::TooLarge.describe(), "table too large for its format");
}

#[test]
fn large_budget_is_bounded_by_the_format_only() {
    // the budget has room, and the offset of the second entry fits two bytes
    let mut builder = BlockBuilder::new(100000);
    assert!(builder.add(b"k", &vec![7u8; 65000]));
    assert!(builder.add(b"k2", &vec![8u8; 600]));
    // the entries now take more than 65535 bytes: no offset can tell where the next one starts
    assert!(!builder.add(b"k3", b""));
    let block = builder.build();
    assert_eq!(block.num_entries(), 2);
    let bytes = block.encode();
    assert_eq!(bytes.len(), (4 + 1 + 65000) + (8 + 1 + 600) + 2 * 2 + 2);
    let got = collect(Block::decode(&bytes).unwrap());
    assert_eq!(got.len(), 2);
    assert_eq!(got[1], (b"k2".to_vec(), vec![8u8; 600]));
    // the budget is the rule below the limits of the format
    let mut builder = BlockBuilder::new(65619);
    assert!(builder.add(b"k", &vec![7u8; 65000]));
    assert!(builder.add(b"k2", &vec![8u8; 600]));
    let mut builder = BlockBuilder::new(65618);
    assert!(builder.add(b"k", &vec![7u8; 65000]));
    assert!(!builder.add(b"k2", &vec![8u8; 600]));
}

#[test]
fn key_field_must_fit_two_bytes() {
    // behind the first entry a key is stored as four bytes and what it does not share
    let mut builder = BlockBuilder::new(1 << 20);
    assert!(builder.add(b"a", b""));
    assert!(!builder.add(&vec![b'b'; 65535], b""));
    assert!(!builder.add(&vec![b'b'; 65532], b""));
    assert!(builder.add(&vec![b'b'; 65531], b""));
    let mut builder = BlockBuilder::new(1 << 20);
    assert!(builder.add(b"bbbb", b""));
    // four bytes are shared with the first key
    assert!(builder.add(&vec![b'b'; 65535], b""));
    let bytes = builder.build().encode();
    let got = collect(Block::decode(&bytes).unwrap());
    assert_eq!(got[1].0, vec![b'b'; 65535]);
}
