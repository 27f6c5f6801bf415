use mencius::db::skiplist::SkipList;
use mencius::util::comparator::{BytewiseComparatorImpl, ReverseBytewiseComparator};
use mencius::util::random::Random;
use std::collections::BTreeSet;

fn key_of(n: u32) -> Vec<u8> {
    n.to_be_bytes().to_vec()
}

#[test]
fn skiplist_empty() {
    let list = SkipList::new(BytewiseComparatorImpl);
    assert!(!list.contains(b"10"));
    let mut iter = list.iter();
    assert!(!iter.valid());
    iter.seek_to_first();
    assert!(!iter.valid());
    iter.seek(b"ancestor");
    assert!(!iter.valid());
    iter.seek_to_last();
    assert!(!iter.valid());
}

#[test]
fn skiplist_insert_and_lookup() {
    let mut rnd = Random::new(1000);
    let mut keys = BTreeSet::new();
    let mut list = SkipList::new(BytewiseComparatorImpl);
    for _ in 0..2000 {
        let k = rnd.next() % 5000;
        if keys.insert(k) {
            list.insert(key_of(k));
        }
    }
    for i in 0..5000 {
        assert_eq!(list.contains(&key_of(i)), keys.contains(&i));
    }

    // Forward iteration gives every key in order.
    let mut iter = list.iter();
    iter.seek_to_first();
    for k in keys.iter() {
        assert!(iter.valid());
        assert_eq!(iter.key(), key_of(*k).as_slice());
        iter.next();
    }
    assert!(!iter.valid());

    // Backward iteration gives them in reverse.
    let mut iter = list.iter();
    iter.seek_to_last();
    for k in keys.iter().rev() {
        assert!(iter.valid());
        assert_eq!(iter.key(), key_of(*k).as_slice());
        iter.prev();
    }
    assert!(!iter.valid());

    // Seeking finds the first key at or after the target.
    for i in 0..5000 {
        let mut iter = list.iter();
        iter.seek(&key_of(i));
        match keys.range(i..).next() {
            Some(k) => {
                assert!(iter.valid());
                assert_eq!(iter.key(), key_of(*k).as_slice());
            }
            None => assert!(!iter.valid()),
        }
    }
}

#[test]
fn skiplist_reverse_order() {
    let mut list = SkipList::new(ReverseBytewiseComparator);
    list.insert(b"ab".to_vec());
    list.insert(b"ba".to_vec());
    list.insert(b"cc".to_vec());
    let mut iter = list.iter();
    iter.seek_to_first();
    assert_eq!(iter.key(), b"ba");
    iter.next();
    assert_eq!(iter.key(), b"ab");
    iter.next();
    assert_eq!(iter.key(), b"cc");
    iter.next();
    assert!(!iter.valid());
    assert!(list.contains(b"ab"));
    assert!(!list.contains(b"ca"));
}
