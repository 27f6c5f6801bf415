use mencius::db::iterator::{new_error_iterator, DBIterator, EmptyDBIterator};
use mencius::util::options::{CompressionType, Options};
use mencius::util::comparator::{BytewiseComparatorImpl, Comparator};
use mencius::util::random::Random;

#[test]
fn random_follows_the_minimal_standard_sequence() {
    let mut r = Random::new(1);
    assert_eq!(r.next(), 16807);
    assert_eq!(r.next(), 282475249);
    assert_eq!(r.next(), 1622650073);
}

#[test]
fn random_replaces_bad_seeds() {
    let mut a = Random::new(0);
    let mut b = Random::new(1);
    assert_eq!(a.next(), b.next());
    let mut c = Random::new(2147483647);
    let mut d = Random::new(1);
    assert_eq!(c.next(), d.next());
    // Only the low 31 bits of the seed count.
    let mut e = Random::new(0x8000_0005);
    let mut f = Random::new(5);
    assert_eq!(e.next(), f.next());
}

#[test]
fn random_helpers_stay_in_range() {
    let mut r = Random::new(301);
    for _ in 0..1000 {
        assert!(r.uniform(10) < 10);
        assert!(r.skewed(4) < 16);
    }
    let mut ones = 0;
    for _ in 0..1000 {
        if r.one_in(1) {
            ones += 1;
        }
    }
    assert_eq!(ones, 1000);
}

#[test]
fn options_defaults() {
    let o = Options::default();
    assert_eq!(o.max_file_size, 4 * 1024 * 1024);
    assert_eq!(o.block_restart_interval, 16);
    assert_eq!(o.block_size, 4 * 1024);
    assert_eq!(o.compression, CompressionType::SnappyCompression);
    assert_eq!(o.zstd_compression_level, 1);
    assert!(!o.paranoid_checks);
}

#[test]
fn compression_type_numbers() {
    assert_eq!(CompressionType::try_from_u8(0), Ok(CompressionType::NoCompression));
    assert_eq!(CompressionType::try_from_u8(2), Ok(CompressionType::ZstdCompression));
    assert_eq!(CompressionType::try_from_u8(3), Err("bad block type"));
    assert_eq!(CompressionType::SnappyCompression.as_u8(), 1);
}

#[test]
fn empty_iterator_is_never_valid() {
    let mut it = EmptyDBIterator::new();
    assert!(!it.valid());
    it.seek_to_first();
    it.seek(b"x");
    assert!(!it.valid());
    assert!(it.key().is_empty());
    assert!(it.value().is_empty());
    assert!(it.status().is_ok());
    let e = new_error_iterator("broken".to_string());
    assert!(!e.valid());
    assert!(e.status().is_err());
}

#[test]
fn random_test_data_has_its_shape() {
    use_random_test_data();
}

fn use_random_test_data() {
    let mut rng = rand::thread_rng();
    for len in [0, 1, 5, 40] {
        let s = mencius::util::testutil::random_string(&mut rng, len);
        assert_eq!(s.len(), len as usize);
        assert!(s.bytes().all(|b| (32..127).contains(&b)));
        let k = mencius::util::testutil::random_key(&mut rng, len);
        assert_eq!(k.len(), len as usize);
        assert!(k.iter().all(|b| [0u8, 1, b'a', b'b', b'c', b'd', b'e', 0xfd, 0xfe, 0xff].contains(b)));
    }
    assert!(mencius::util::testutil::random_string(&mut rng, -3).is_empty());
    for _ in 0..100 {
        assert!(mencius::util::testutil::skewed(&mut rng, 5) < 32);
        assert_eq!(mencius::util::testutil::skewed(&mut rng, 0), 0);
    }
}

#[test]
fn bytewise_separator_and_successor() {
    let c = BytewiseComparatorImpl;
    // The first differing byte can be raised and still sort below the limit.
    assert_eq!(c.find_shortest_separator(b"abc1xyz", b"abc3"), Some(b"abc2".to_vec()));
    // It cannot: the start is cut just after that byte, which sorts before the start.
    assert_eq!(c.find_shortest_separator(b"key00158", b"key00160"), Some(b"key0015".to_vec()));
    // One key is a prefix of the other.
    assert_eq!(c.find_shortest_separator(b"abc", b"abcd"), None);
    assert_eq!(c.find_short_successor(b"\xff\xffa\x01"), Some(b"\xff\xffb".to_vec()));
    assert_eq!(c.find_short_successor(b"\xff\xff"), None);
}

#[test]
fn hash_known_values() {
    use_hash_values();
}

fn use_hash_values() {
    let seed = 0xbc9f1d34;
    assert_eq!(mencius::util::hash::hash(b"", seed), 0xbc9f1d34);
    assert_eq!(mencius::util::hash::hash(&[0x62], seed), 0xef1345c4);
    assert_eq!(mencius::util::hash::hash(&[0xc3, 0x97], seed), 0x5b663814);
    assert_eq!(mencius::util::hash::hash(&[0xe2, 0x99, 0xa5], seed), 0x323c078f);
    assert_eq!(mencius::util::hash::hash(&[0xe1, 0x80, 0xb9, 0x32], seed), 0xed21633a);
}

#[test]
fn empty_iterator_moves_are_no_ops() {
    let mut it = EmptyDBIterator::new();
    it.next();
    it.prev();
    it.seek_to_first();
    assert!(!it.valid());
    assert!(it.key().is_empty());
    assert!(it.value().is_empty());
    assert!(it.status().is_ok());
}
