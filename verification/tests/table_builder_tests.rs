use mencius::db::iterator::DBIterator;
use mencius::db::options::ReadOptions;
use mencius::table::block::Block;
use mencius::table::format::{block_from_read, BlockHandle, Footer, BLOCK_TRAILER_SIZE, ENCODED_LENGTH};
use mencius::table::table_builder::{create_block_trailer, mask, TableBuilder};
use mencius::util::coding::decode_fixed32;
use mencius::util::comparator::BytewiseComparatorImpl;
use mencius::util::filter_policy::HashFilterPolicy;
use mencius::util::options::{CompressionType, Options};

/// Reads the block that `handle` points at in `table`.
fn read_block(table: &[u8], handle: &BlockHandle) -> Vec<u8> {
    let start = handle.offset() as usize;
    let end = start + handle.size() as usize + BLOCK_TRAILER_SIZE;
    let buf = &table[start..end];
    let content = block_from_read(buf, buf.len(), &ReadOptions::default(), handle).unwrap();
    content.data
}

/// Builds a table of `entries` and reads every entry back through the index.
fn round_trip(compression: CompressionType, entries: &[(Vec<u8>, Vec<u8>)]) {
    let mut options = Options::default();
    options.compression = compression;
    options.block_size = 128;
    let mut builder: TableBuilder<BytewiseComparatorImpl, HashFilterPolicy> =
        TableBuilder::new(options, BytewiseComparatorImpl, None);
    for (k, v) in entries {
        builder.add(k, v);
    }
    assert!(builder.finish().is_ok());
    let table = builder.take_output();
    assert_eq!(table.len() as u64, builder.file_size());

    let mut footer = Footer::new();
    assert!(footer.decode_from(&table[table.len() - ENCODED_LENGTH..]).is_ok());
    let index = Block::new(mencius::table::format::BlockContent::new(
        read_block(&table, footer.index_handle()),
        true,
        true,
    ));
    let mut index_iter = index.new_iterator(BytewiseComparatorImpl);
    index_iter.seek_to_first();
    let mut got = Vec::new();
    while index_iter.valid() {
        let mut handle = BlockHandle::new();
        assert!(handle.decode_from(index_iter.value()).is_ok());
        let block = Block::new(mencius::table::format::BlockContent::new(
            read_block(&table, &handle),
            true,
            true,
        ));
        let mut it = block.new_iterator(BytewiseComparatorImpl);
        it.seek_to_first();
        while it.valid() {
            got.push((it.key().to_vec(), it.value().to_vec()));
            it.next();
        }
        index_iter.next();
    }
    assert_eq!(got, entries.to_vec());
}

fn sample_entries(n: u32) -> Vec<(Vec<u8>, Vec<u8>)> {
    (0..n)
        .map(|i| (format!("key{:06}", i).into_bytes(), format!("value-{}-{}", i, "x".repeat((i % 13) as usize)).into_bytes()))
        .collect()
}

#[test]
fn table_round_trip_uncompressed() {
    round_trip(CompressionType::NoCompression, &sample_entries(300));
}

#[test]
fn table_round_trip_snappy() {
    round_trip(CompressionType::SnappyCompression, &sample_entries(300));
}

#[test]
fn table_round_trip_zstd() {
    round_trip(CompressionType::ZstdCompression, &sample_entries(300));
}

#[test]
fn empty_table_has_footer_only_blocks() {
    round_trip(CompressionType::NoCompression, &[]);
}

#[test]
fn mask_rotates_and_adds_delta() {
    assert_eq!(mask(0), 0xa282ead8);
    assert_eq!(mask(1), (1u32 << 17).wrapping_add(0xa282ead8));
    assert_eq!(mask(1 << 15), 1u32.wrapping_add(0xa282ead8));
}

#[test]
fn block_trailer_holds_type_and_masked_crc() {
    let t = create_block_trailer(b"abc", 1);
    assert_eq!(t.len(), 5);
    assert_eq!(t[0], 1);
    let mut data = b"abc".to_vec();
    data.push(1);
    assert_eq!(decode_fixed32(&t[1..]), mask(crc32fast::hash(&data)));
}

#[test]
fn finish_with_filter_writes_filter_block() {
    let mut builder: TableBuilder<BytewiseComparatorImpl, HashFilterPolicy> =
        TableBuilder::new(Options::default(), BytewiseComparatorImpl, Some(HashFilterPolicy));
    builder.add(b"a", b"1");
    assert!(builder.finish().is_ok());
    let table = builder.take_output();
    assert_eq!(table.len() as u64, builder.file_size());
    assert!(builder.status().is_ok());
}
