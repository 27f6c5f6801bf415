use mencius::table::filter_block::{FilterBlockBuilder, FilterBlockReader};
use mencius::util::coding::decode_fixed32;
use mencius::util::filter_policy::HashFilterPolicy;
use mencius::util::hash::hash;

#[test]
fn test_empty_filter_block() {
    let mut builder = FilterBlockBuilder::new(HashFilterPolicy);
    let block = builder.finish();
    assert_eq!(block.len(), 5);
    assert_eq!(block, [0, 0, 0, 0, 11]);
    let reader = FilterBlockReader::new(HashFilterPolicy, block);
    assert!(reader.key_may_match(0, b"foo"));
    assert!(reader.key_may_match(100000, b"foo"));
}

#[test]
fn test_single_chunk() {
    let mut builder = FilterBlockBuilder::new(HashFilterPolicy);
    builder.start_block(100);
    builder.add_key(b"foo");
    builder.add_key(b"bar");
    builder.add_key(b"box");
    builder.start_block(200);
    builder.add_key(b"box");
    builder.start_block(300);
    builder.add_key(b"hello");
    let block = builder.finish();
    let reader = FilterBlockReader::new(HashFilterPolicy, block);
    assert!(reader.key_may_match(100, b"foo"));
    assert!(reader.key_may_match(100, b"bar"));
    assert!(reader.key_may_match(100, b"box"));
    assert!(reader.key_may_match(100, b"hello"));
    assert!(reader.key_may_match(100, b"foo"));
    assert!(!reader.key_may_match(100, b"missing"));
    assert!(!reader.key_may_match(100, b"other"));
}

#[test]
fn test_multi_chunk() {
    let mut builder = FilterBlockBuilder::new(HashFilterPolicy);
    builder.start_block(0);
    builder.add_key(b"foo");
    builder.start_block(2000);
    builder.add_key(b"bar");

    builder.start_block(3100);
    builder.add_key(b"box");

    builder.start_block(9000);
    builder.add_key(b"box");
    builder.add_key(b"hello");

    let block = builder.finish();
    let reader = FilterBlockReader::new(HashFilterPolicy, block);
    assert!(reader.key_may_match(0, b"foo"));
    assert!(reader.key_may_match(2000, b"bar"));
    assert!(!reader.key_may_match(0, b"box"));
    assert!(!reader.key_may_match(0, b"hello"));

    assert!(reader.key_may_match(3100, b"box"));
    assert!(!reader.key_may_match(3100, b"foo"));
    assert!(!reader.key_may_match(3100, b"bar"));
    assert!(!reader.key_may_match(3100, b"hello"));

    assert!(!reader.key_may_match(4100, b"foo"));
    assert!(!reader.key_may_match(4100, b"bar"));
    assert!(!reader.key_may_match(4100, b"box"));
    assert!(!reader.key_may_match(4100, b"hello"));

    assert!(reader.key_may_match(9000, b"box"));
    assert!(reader.key_may_match(9000, b"hello"));
    assert!(!reader.key_may_match(9000, b"foo"));
    assert!(!reader.key_may_match(9000, b"bar"));
}

#[test]
fn short_filter_block_matches_everything() {
    let reader = FilterBlockReader::new(HashFilterPolicy, &[1, 2, 3]);
    assert!(reader.key_may_match(0, b"anything"));
}

#[test]
fn offset_array_past_trailer_matches_everything() {
    // The last word claims the offset array starts at 100, past the block.
    let reader = FilterBlockReader::new(HashFilterPolicy, &[100, 0, 0, 0, 11]);
    assert!(reader.key_may_match(0, b"anything"));
}

#[test]
fn every_added_key_matches_its_block() {
    let keys: Vec<Vec<u8>> = (0..50u32).map(|i| format!("key{}", i).into_bytes()).collect();
    let mut builder = FilterBlockBuilder::new(HashFilterPolicy);
    for (i, k) in keys.iter().enumerate() {
        builder.start_block((i as u64) * 1000);
        builder.add_key(k);
    }
    let block = builder.finish().to_vec();
    let reader = FilterBlockReader::new(HashFilterPolicy, &block);
    for (i, k) in keys.iter().enumerate() {
        assert!(reader.key_may_match((i as u64) * 1000, k));
    }
}

#[test]
fn filter_block_layout() {
    let mut builder = FilterBlockBuilder::new(HashFilterPolicy);
    builder.start_block(0);
    builder.add_key(b"a");
    let block = builder.finish().to_vec();
    // One 4-byte filter, its offset 0, the array offset 4, then the base logarithm.
    assert_eq!(block.len(), 4 + 4 + 4 + 1);
    assert_eq!(decode_fixed32(&block[0..4]), hash(b"a", 1));
    assert_eq!(decode_fixed32(&block[4..8]), 0);
    assert_eq!(decode_fixed32(&block[8..12]), 4);
    assert_eq!(block[12], 11);
}
