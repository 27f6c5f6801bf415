use mencius::db::error::DbError;
use mencius::db::iterator::DBIterator;
use mencius::db::options::ReadOptions;
use mencius::table::block::Block;
use mencius::table::format::{
    block_from_read, BlockContent, BlockHandle, Footer, RandomAccessFile, BLOCK_TRAILER_SIZE,
    ENCODED_LENGTH,
};
use mencius::table::table::{HanldeTableData, Table};
use mencius::table::table_builder::TableBuilder;
use mencius::table::two_level_iterator::new_two_level_iterator;
use mencius::util::comparator::BytewiseComparatorImpl;
use mencius::util::filter_policy::HashFilterPolicy;
use mencius::util::options::{CompressionType, Options};
use std::cell::RefCell;
use std::rc::Rc;

/// A table file held in memory.
struct MemFile(Vec<u8>);

impl RandomAccessFile for MemFile {
    fn read_at(&self, offset: u64, n: usize) -> Result<Vec<u8>, DbError> {
        let start = (offset as usize).min(self.0.len());
        let end = (start + n).min(self.0.len());
        Ok(self.0[start..end].to_vec())
    }
}

/// Collects what a lookup hands over.
struct Collect(Rc<RefCell<Vec<(Vec<u8>, Vec<u8>)>>>);

impl HanldeTableData for Collect {
    fn handle(&mut self, key: &[u8], value: &[u8]) -> Result<(), DbError> {
        self.0.borrow_mut().push((key.to_vec(), value.to_vec()));
        Ok(())
    }
}

fn sample_entries(n: u32) -> Vec<(Vec<u8>, Vec<u8>)> {
    (0..n)
        .map(|i| (format!("key{:05}", i * 2).into_bytes(), format!("value{}", i).into_bytes()))
        .collect()
}

fn build(entries: &[(Vec<u8>, Vec<u8>)], compression: CompressionType) -> Vec<u8> {
    let mut options = Options::default();
    options.compression = compression;
    options.block_size = 256;
    let mut builder: TableBuilder<BytewiseComparatorImpl, HashFilterPolicy> =
        TableBuilder::new(options, BytewiseComparatorImpl, None);
    for (k, v) in entries {
        builder.add(k, v);
    }
    assert!(builder.finish().is_ok());
    builder.take_output()
}

fn open(data: Vec<u8>) -> Table<MemFile, BytewiseComparatorImpl, HashFilterPolicy> {
    let size = data.len() as u64;
    match Table::new(&Options::default(), BytewiseComparatorImpl, None, MemFile(data), size) {
        Ok(t) => t,
        Err(_) => panic!("table did not open"),
    }
}

#[test]
fn table_too_short() {
    let r: Result<Table<MemFile, BytewiseComparatorImpl, HashFilterPolicy>, DbError> =
        Table::new(&Options::default(), BytewiseComparatorImpl, None, MemFile(vec![0; 10]), 10);
    match r {
        Err(DbError::Corruption(m)) => assert_eq!(m, "file is too short to be an sstable"),
        _ => panic!("expected a corruption"),
    }
}

#[test]
fn table_bad_magic() {
    let data = vec![0u8; 100];
    let r: Result<Table<MemFile, BytewiseComparatorImpl, HashFilterPolicy>, DbError> =
        Table::new(&Options::default(), BytewiseComparatorImpl, None, MemFile(data), 100);
    match r {
        Err(DbError::Corruption(m)) => assert_eq!(m, "not an sstable (bad magic number)"),
        _ => panic!("expected a corruption"),
    }
}

/// Keys two apart in their last byte, so that every index separator lies strictly
/// between the blocks it separates.
fn spaced_entries(n: u8) -> Vec<(Vec<u8>, Vec<u8>)> {
    (0..n).map(|i| (vec![b'k', 2 * i], format!("value{:020}", i).into_bytes())).collect()
}

#[test]
fn table_internal_get_finds_entries() {
    for compression in [CompressionType::NoCompression, CompressionType::SnappyCompression] {
        let entries = spaced_entries(120);
        let mut table = open(build(&entries, compression));
        for (k, v) in &entries {
            let got = Rc::new(RefCell::new(Vec::new()));
            let r = table.internal_get(&ReadOptions::default(), k, &mut Collect(got.clone()));
            assert!(r.is_ok());
            assert_eq!(*got.borrow(), vec![(k.clone(), v.clone())]);
        }
        // A key past the last one finds nothing.
        let got = Rc::new(RefCell::new(Vec::new()));
        assert!(table.internal_get(&ReadOptions::default(), b"zzz", &mut Collect(got.clone())).is_ok());
        assert!(got.borrow().is_empty());
    }
}

#[test]
fn table_approximate_offsets_grow() {
    let entries = sample_entries(500);
    let data = build(&entries, CompressionType::NoCompression);
    let len = data.len() as u64;
    let table = open(data);
    assert_eq!(table.approximate_offset_of(b"a"), 0);
    let mut last = 0;
    for (k, _) in &entries {
        let off = table.approximate_offset_of(k);
        assert!(off >= last);
        last = off;
    }
    let past = table.approximate_offset_of(b"zzz");
    assert!(past >= last);
    assert!(past < len);
}

#[test]
fn table_two_level_iteration() {
    let entries = sample_entries(300);
    let data = build(&entries, CompressionType::NoCompression);
    let mut footer = Footer::new();
    assert!(footer.decode_from(&data[data.len() - ENCODED_LENGTH..]).is_ok());
    let h: &BlockHandle = footer.index_handle();
    let start = h.offset() as usize;
    let end = start + h.size() as usize + BLOCK_TRAILER_SIZE;
    let buf = &data[start..end];
    let content: BlockContent = match block_from_read(buf, buf.len(), &ReadOptions::default(), h) {
        Ok(c) => c,
        Err(_) => panic!("index block did not read"),
    };
    let index = Block::new(content);
    let index_iter = index.new_iterator(BytewiseComparatorImpl);
    let table = open(data);
    let mut iter = new_two_level_iterator(index_iter, &table, ReadOptions::default());
    iter.seek_to_first();
    let mut got = Vec::new();
    while iter.valid() {
        got.push((iter.key().to_vec(), iter.value().to_vec()));
        iter.next();
    }
    assert_eq!(got, entries);

    iter.seek_to_last();
    let mut back = Vec::new();
    while iter.valid() {
        back.push((iter.key().to_vec(), iter.value().to_vec()));
        iter.prev();
    }
    back.reverse();
    assert_eq!(back, entries);

    iter.seek(b"key00101");
    assert!(iter.valid());
    assert_eq!(iter.key(), b"key00102");
    assert!(iter.status().is_ok());
}


#[test]
fn footer_from_read_decodes_an_encoded_footer() {
    let mut footer = Footer::new();
    let mut h = BlockHandle::new();
    h.set_offset(100);
    h.set_size(20);
    footer.set_index_handle(h);
    let bytes = footer.encode_to();
    match mencius::table::table::footer_from_read(bytes.clone()) {
        Ok((buf, f)) => {
            assert_eq!(buf, bytes);
            assert_eq!(f.index_handle().offset, 100);
            assert_eq!(f.index_handle().size, 20);
        }
        Err(_) => panic!("expected a footer"),
    }
}

#[test]
fn footer_from_read_pads_a_short_read() {
    match mencius::table::table::footer_from_read(vec![1, 2, 3]) {
        Err(DbError::Corruption(m)) => assert_eq!(m, "not an sstable (bad magic number)"),
        _ => panic!("expected a corruption"),
    }
}
