use mencius::db::iterator::DBIterator;
use mencius::table::block::Block;
use mencius::table::block_builder::BlockBuilder;
use mencius::table::format::BlockContent;
use mencius::util::comparator::{
    BytewiseComparatorImpl, Comparator, KeyOrder, ReverseBytewiseComparator,
};
use mencius::util::options::Options;
use std::cmp::Ordering;
use std::collections::BTreeMap;

/// The two comparators the block tests run with.
#[derive(Clone, Copy)]
enum TestComparator {
    Bytewise,
    Reverse,
}

impl TestComparator {
    fn compare(&self, a: &[u8], b: &[u8]) -> KeyOrder {
        match self {
            TestComparator::Bytewise => BytewiseComparatorImpl.compare(a, b),
            TestComparator::Reverse => ReverseBytewiseComparator.compare(a, b),
        }
    }
}

#[derive(Clone)]
struct KeyWrapper {
    key: Vec<u8>,
    cmp: TestComparator,
}

impl PartialEq for KeyWrapper {
    fn eq(&self, other: &Self) -> bool {
        self.cmp.compare(&self.key, &other.key) == KeyOrder::Equal
    }
}

impl Eq for KeyWrapper {}

impl PartialOrd for KeyWrapper {
    fn partial_cmp(&self, other: &Self) -> Option<Ordering> {
        Some(self.cmp(other))
    }
}

impl Ord for KeyWrapper {
    fn cmp(&self, other: &Self) -> Ordering {
        match self.cmp.compare(&self.key, &other.key) {
            KeyOrder::Less => Ordering::Less,
            KeyOrder::Equal => Ordering::Equal,
            KeyOrder::Greater => Ordering::Greater,
        }
    }
}

type KVMap = BTreeMap<KeyWrapper, Vec<u8>>;

struct TestArgs {
    reverse_compare: bool,
    restart_interval: usize,
}

const BLOCK_TEST_ARGS: [TestArgs; 6] = [
    TestArgs { reverse_compare: false, restart_interval: 16 },
    TestArgs { reverse_compare: false, restart_interval: 1 },
    TestArgs { reverse_compare: false, restart_interval: 1024 },
    TestArgs { reverse_compare: true, restart_interval: 16 },
    TestArgs { reverse_compare: true, restart_interval: 1 },
    TestArgs { reverse_compare: true, restart_interval: 1024 },
];

struct TestTemplate {
    options: Options,
    cmp: TestComparator,
    data: KVMap,
}

impl TestTemplate {
    fn new(args: &TestArgs) -> Self {
        let mut options = Options::default();
        options.block_restart_interval = args.restart_interval as isize;
        options.block_size = 256;
        let cmp = if args.reverse_compare { TestComparator::Reverse } else { TestComparator::Bytewise };
        TestTemplate { options, cmp, data: KVMap::new() }
    }

    fn add(&mut self, key: &[u8], value: &[u8]) {
        self.data.insert(KeyWrapper { key: key.to_vec(), cmp: self.cmp }, value.to_vec());
    }

    fn block(&self) -> Block {
        let mut builder = BlockBuilder::new(self.options);
        for (key, value) in &self.data {
            builder.add(key.key.as_slice(), value);
        }
        let block_data = builder.finish();
        Block::new(BlockContent::new(block_data.to_vec(), false, false))
    }

    fn test(&self) {
        match self.cmp {
            TestComparator::Bytewise => self.run(BytewiseComparatorImpl),
            TestComparator::Reverse => self.run(ReverseBytewiseComparator),
        }
    }

    fn scan(&self) {
        match self.cmp {
            TestComparator::Bytewise => self.scan_with(BytewiseComparatorImpl),
            TestComparator::Reverse => self.scan_with(ReverseBytewiseComparator),
        }
    }

    /// Forward and backward scans only.
    fn scan_with<C: Comparator + Copy>(&self, cmp: C) {
        let block = self.block();
        let mut iter = block.new_iterator(cmp);
        assert!(!iter.valid());
        iter.seek_to_first();
        for (k, v) in &self.data {
            assert_eq!(iter.key(), k.key.as_slice());
            assert_eq!(iter.value(), v.as_slice());
            iter.next();
        }
        assert!(!iter.valid());
        let mut iter = block.new_iterator(cmp);
        assert!(!iter.valid());
        iter.seek_to_last();
        for (k, v) in self.data.iter().rev() {
            assert_eq!(iter.key(), k.key.as_slice());
            assert_eq!(iter.value(), v.as_slice());
            iter.prev();
        }
        assert!(!iter.valid());
    }

    fn run<C: Comparator + Copy>(&self, cmp: C) {
        let block = self.block();
        // Forward scan.
        let mut iter = block.new_iterator(cmp);
        assert!(!iter.valid());
        iter.seek_to_first();
        for (k, v) in &self.data {
            assert_eq!(iter.key(), k.key.as_slice());
            assert_eq!(iter.value(), v.as_slice());
            iter.next();
        }
        assert!(!iter.valid());
        // Backward scan.
        let mut iter = block.new_iterator(cmp);
        assert!(!iter.valid());
        iter.seek_to_last();
        for (k, v) in self.data.iter().rev() {
            assert_eq!(iter.key(), k.key.as_slice());
            assert_eq!(iter.value(), v.as_slice());
            iter.prev();
        }
        assert!(!iter.valid());
        // Seeking to each key finds it.
        let mut iter = block.new_iterator(cmp);
        for (k, v) in &self.data {
            iter.seek(&k.key);
            assert!(iter.valid());
            assert_eq!(iter.key(), k.key.as_slice());
            assert_eq!(iter.value(), v.as_slice());
        }
    }
}

#[test]
fn test_empty() {
    for args in BLOCK_TEST_ARGS.iter() {
        let test = TestTemplate::new(args);
        test.test();
    }
}

#[test]
fn test_zero_restart_points_in_block() {
    let contents = BlockContent::new(vec![0, 0, 0, 0], false, false);
    let block = Block::new(contents);
    let mut iter = block.new_iterator_into(BytewiseComparatorImpl);
    iter.seek_to_first();
    assert!(!iter.valid());
    iter.seek_to_first();
    assert!(!iter.valid());
    iter.seek(b"foo");
    assert!(!iter.valid());
}

#[test]
fn test_simple_empty_key() {
    for args in BLOCK_TEST_ARGS.iter() {
        let mut test = TestTemplate::new(args);
        test.add(b"", b"v");
        test.test();
    }
}

#[test]
fn test_simple_single() {
    for args in BLOCK_TEST_ARGS.iter() {
        let mut test = TestTemplate::new(args);
        test.add(b"abc", b"v");
        test.test();
    }
}

#[test]
fn test_simple_multi() {
    for args in BLOCK_TEST_ARGS.iter() {
        let mut test = TestTemplate::new(args);
        test.add(b"abc", b"v");
        test.add(b"abcd", b"v");
        test.add(b"ac", b"v2");
        test.test();
    }
}

#[test]
fn test_simple_special_key() {
    for args in BLOCK_TEST_ARGS.iter() {
        let mut test = TestTemplate::new(args);
        test.add(b"\xff\xff", b"v3");
        test.test();
    }
}

#[test]
fn many_keys_round_trip_through_a_block() {
    for args in BLOCK_TEST_ARGS.iter() {
        let mut test = TestTemplate::new(args);
        for i in 0..200u32 {
            let key = format!("key{:05}", i * 7);
            let value = format!("value{}", i);
            test.add(key.as_bytes(), value.as_bytes());
        }
        test.test();
    }
}

#[test]
fn seek_lands_on_first_key_at_or_after_target() {
    let mut test = TestTemplate::new(&BLOCK_TEST_ARGS[0]);
    test.add(b"b", b"1");
    test.add(b"d", b"2");
    test.add(b"f", b"3");
    let block = test.block();
    let mut iter = block.new_iterator(BytewiseComparatorImpl);
    iter.seek(b"c");
    assert!(iter.valid());
    assert_eq!(iter.key(), b"d");
    iter.seek(b"a");
    assert_eq!(iter.key(), b"b");
    iter.seek(b"g");
    assert!(!iter.valid());
}

#[test]
fn block_too_short_for_its_restart_count_reports_corruption() {
    let block = Block::new(BlockContent::new(vec![1, 2, 3], false, false));
    assert_eq!(block.size(), 0);
    let iter = block.new_iterator(BytewiseComparatorImpl);
    assert!(!iter.valid());
    match iter.status() {
        Err(mencius::db::error::DbError::Corruption(m)) => assert_eq!(m, "bad block contents"),
        _ => panic!("expected a corruption"),
    }
}

#[test]
fn restart_count_larger_than_block_gives_size_zero() {
    // Claims 100 restart points in an 8-byte block.
    let block = Block::new(BlockContent::new(vec![0, 0, 0, 0, 100, 0, 0, 0], false, false));
    assert_eq!(block.size(), 0);
}

#[test]
fn prefix_compression_shares_key_prefixes() {
    let mut options = Options::default();
    options.block_restart_interval = 16;
    let mut builder = BlockBuilder::new(options);
    builder.add(b"apple", b"1");
    builder.add(b"apply", b"2");
    let data = builder.finish().to_vec();
    // Entry 1: shared 0, non-shared 5, value 1, "apple", "1".
    assert_eq!(&data[0..9], &[0, 5, 1, b'a', b'p', b'p', b'l', b'e', b'1']);
    // Entry 2: shared 4, non-shared 1, value 1, "y", "2".
    assert_eq!(&data[9..14], &[4, 1, 1, b'y', b'2']);
    // One restart point at 0, and the count.
    assert_eq!(&data[14..], &[0, 0, 0, 0, 1, 0, 0, 0]);
}

#[test]
fn builder_estimate_and_reset() {
    let mut builder = BlockBuilder::new(Options::default());
    assert!(builder.empty());
    assert_eq!(builder.current_size_estimate(), 8);
    builder.add(b"k", b"v");
    assert!(!builder.empty());
    assert_eq!(builder.current_size_estimate(), 5 + 8);
    builder.reset();
    assert!(builder.empty());
    assert_eq!(builder.current_size_estimate(), 8);
}

#[test]
fn test_randomized() {
    for (i, args) in BLOCK_TEST_ARGS.iter().enumerate() {
        let mut test = TestTemplate::new(args);
        let mut num_entries = 0;
        let mut rng = rand::thread_rng();
        while num_entries < 2000 {
            if num_entries % 10 == 0 {
                println!("case {} of {}: num_entries = {}", i + 1, BLOCK_TEST_ARGS.len(), num_entries);
            }
            for _ in 0..num_entries {
                let len = mencius::util::testutil::skewed(&mut rng, 4);
                let key = mencius::util::testutil::random_key(&mut rng, len as i32);
                let len2 = mencius::util::testutil::skewed(&mut rng, 5);
                let value = mencius::util::testutil::random_string(&mut rng, len2 as i32);
                test.add(&key, value.as_bytes());
            }
            if num_entries < 50 {
                num_entries += 1;
            } else {
                num_entries += 200;
            }
            test.scan();
        }
    }
}
