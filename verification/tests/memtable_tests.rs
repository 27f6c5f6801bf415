use mencius::db::dbformat::{InternalKeyComparator, LookupKey, ValueType};
use mencius::db::error::DbError;
use mencius::db::memtable::MemTable;
use mencius::util::comparator::BytewiseComparatorImpl;

#[test]
fn memtable_lookup_finds_what_was_added() {
    let cmp = InternalKeyComparator::new(BytewiseComparatorImpl);
    let mut mt = MemTable::new(&cmp);
    mt.add(1, ValueType::TypeValue, b"key-one!", b"v1");
    mt.add(2, ValueType::TypeValue, b"key-two!", b"v2");
    match mt.get(&LookupKey::new(b"key-one!", 1)) {
        Ok(Some(v)) => assert_eq!(v, b"v1".to_vec()),
        _ => panic!("expected v1"),
    }
    match mt.get(&LookupKey::new(b"key-two!", 5)) {
        Ok(Some(v)) => assert_eq!(v, b"v2".to_vec()),
        _ => panic!("expected v2"),
    }
}

#[test]
fn memtable_lookup_sees_the_newest_visible_entry() {
    let cmp = InternalKeyComparator::new(BytewiseComparatorImpl);
    let mut mt = MemTable::new(&cmp);
    mt.add(1, ValueType::TypeValue, b"k", b"old");
    mt.add(3, ValueType::TypeValue, b"k", b"new");
    mt.add(5, ValueType::TypeDeletion, b"k", b"");
    match mt.get(&LookupKey::new(b"k", 2)) {
        Ok(Some(v)) => assert_eq!(v, b"old".to_vec()),
        _ => panic!("expected old"),
    }
    match mt.get(&LookupKey::new(b"k", 4)) {
        Ok(Some(v)) => assert_eq!(v, b"new".to_vec()),
        _ => panic!("expected new"),
    }
    match mt.get(&LookupKey::new(b"k", 9)) {
        Err(DbError::NotFound(m)) => assert_eq!(m, ""),
        _ => panic!("expected a deletion"),
    }
    // Before the first write there is nothing to see.
    match mt.get(&LookupKey::new(b"k", 0)) {
        Ok(None) => {}
        _ => panic!("expected no match"),
    }
}

#[test]
fn memtable_lookup_past_all_entries() {
    let cmp = InternalKeyComparator::new(BytewiseComparatorImpl);
    let mut mt = MemTable::new(&cmp);
    mt.add(0, ValueType::TypeDeletion, b"aaaaaaaa", b"");
    match mt.get(&LookupKey::new(b"zzzzzzzz", 0)) {
        Ok(None) => {}
        _ => panic!("expected no match"),
    }
}
