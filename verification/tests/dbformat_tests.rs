use mencius::db::dbformat::{
    append_internal_key, extract_user_key, pack_sequence_and_type, parse_internal_key,
    InternalKey, InternalKeyComparator, LookupKey, ParseInternalKey, SequenceNumber, ValueType,
    TYPE_FOR_SEEK,
};
use mencius::util::coding::put_varint64;
use mencius::util::comparator::{BytewiseComparatorImpl, Comparator, KeyOrder};
use ValueType::{TypeDeletion, TypeValue};

fn i_key(user_key: &[u8], seq: SequenceNumber, vt: ValueType) -> Vec<u8> {
    append_internal_key(&ParseInternalKey::new(user_key, seq, vt))
}

fn shorten(a: &[u8], b: &[u8]) -> Vec<u8> {
    let c = InternalKeyComparator::new(BytewiseComparatorImpl);
    match c.find_shortest_separator(a, b) {
        Some(v) => v,
        None => a.to_vec(),
    }
}

fn short_successor(a: &[u8]) -> Vec<u8> {
    let c = InternalKeyComparator::new(BytewiseComparatorImpl);
    match c.find_short_successor(a) {
        Some(v) => v,
        None => a.to_vec(),
    }
}

fn test_key(key: &[u8], seq: u64, vt: ValueType) {
    let encoded = i_key(key, seq, vt.clone());
    let pk = parse_internal_key(encoded.as_slice()).unwrap();
    assert_eq!(key, pk.user_key);
    assert_eq!(seq, pk.seq);
    assert_eq!(vt, pk.value_type);
}

#[test]
fn test_internal_key_encode_decode() {
    let keys = ["", "k", "hello", "longggggggggggggggggggggg"];
    let seq = [
        1,
        2,
        3,
        (1_u64 << 8) - 1,
        1_u64 << 8,
        (1_u64 << 8) + 1,
        (1_u64 << 16) - 1,
        1_u64 << 16,
        (1_u64 << 16) + 1,
        (1_u64 << 32) - 1,
        1_u64 << 32,
        (1_u64 << 32) + 1,
    ];
    for k in keys {
        for s in seq {
            test_key(k.as_bytes(), s, TypeValue);
            test_key("hello".as_bytes(), 1, TypeDeletion);
        }
    }
}

#[test]
#[allow(non_snake_case)]
fn test_internal_key_decodeFrom_empty() {
    let k = InternalKey::decode_from(&[]);
    assert!(k.is_none());
}

#[test]
fn test_internal_key_short_separator() {
    // When user keys are same
    assert_eq!(
        i_key("foo".as_bytes(), 100, TypeValue),
        shorten(&i_key("foo".as_bytes(), 100, TypeValue), &i_key("foo".as_bytes(), 99, TypeValue))
    );
    assert_eq!(
        i_key("foo".as_bytes(), 100, TypeValue),
        shorten(&i_key("foo".as_bytes(), 100, TypeValue), &i_key("foo".as_bytes(), 101, TypeValue))
    );
    assert_eq!(
        i_key("foo".as_bytes(), 100, TypeValue),
        shorten(&i_key("foo".as_bytes(), 100, TypeValue), &i_key("foo".as_bytes(), 100, TypeValue))
    );
    assert_eq!(
        i_key("foo".as_bytes(), 100, TypeValue),
        shorten(
            &i_key("foo".as_bytes(), 100, TypeValue),
            &i_key("foo".as_bytes(), 100, TypeDeletion)
        )
    );

    // When user keys are misordered
    assert_eq!(
        i_key("foo".as_bytes(), 100, TypeValue),
        shorten(&i_key("foo".as_bytes(), 100, TypeValue), &i_key("bar".as_bytes(), 99, TypeValue))
    );

    // When user keys are different, but correctly ordered
    assert_eq!(
        i_key("g".as_bytes(), SequenceNumber::MAX, TYPE_FOR_SEEK),
        shorten(
            &i_key("foo".as_bytes(), 100, TypeValue),
            &i_key("hello".as_bytes(), 200, TypeValue)
        )
    );

    // When start user key is prefix of limit user key
    assert_eq!(
        i_key("foo".as_bytes(), 100, TypeValue),
        shorten(
            &i_key("foo".as_bytes(), 100, TypeValue),
            &i_key("foobar".as_bytes(), 200, TypeValue)
        )
    );

    // When limit user key is prefix of start user key
    assert_eq!(
        i_key("foobar".as_bytes(), 100, TypeValue),
        shorten(
            &i_key("foobar".as_bytes(), 100, TypeValue),
            &i_key("foo".as_bytes(), 200, TypeValue)
        )
    );
}

#[test]
fn test_internal_key_shortest_successor() {
    assert_eq!(
        i_key("g".as_bytes(), SequenceNumber::MAX, TYPE_FOR_SEEK),
        short_successor(&i_key("foo".as_bytes(), 100, TypeValue))
    );
    assert_eq!(
        i_key(b"\xff\xff", 100, TypeValue),
        short_successor(&i_key(b"\xff\xff", 100, TypeValue))
    );
}

#[test]
fn test_parsed_internal_key_debug_string() {
    let key = ParseInternalKey::new("The \"key\" in 'single quotes'".as_bytes(), 42, TypeValue);
    assert_eq!(key.debug_string(), "'The \"key\" in 'single quotes'' @ 42 : 1");
}

#[test]
fn test_internal_key_debug_string() {
    let key = InternalKey::new("The \"key\" in 'single quotes'".as_bytes(), 42, TypeValue);
    assert_eq!(key.debug_string(), "'The \"key\" in 'single quotes'' @ 42 : 1");
}

#[test]
fn internal_key_layout_is_user_key_then_tag() {
    let k = i_key(b"ab", 5, TypeValue);
    assert_eq!(k, vec![b'a', b'b', 1, 5, 0, 0, 0, 0, 0, 0]);
    assert_eq!(extract_user_key(&k), b"ab");
    assert_eq!(pack_sequence_and_type(5, 1), (5 << 8) | 1);
}

#[test]
fn parse_rejects_short_internal_keys() {
    assert!(parse_internal_key(&[1, 2, 3]).is_none());
}

#[test]
fn internal_order_sorts_user_key_then_newest_first() {
    let c = InternalKeyComparator::new(BytewiseComparatorImpl);
    let a = i_key(b"foo", 100, TypeValue);
    let b = i_key(b"foo", 99, TypeValue);
    let d = i_key(b"goo", 1, TypeValue);
    assert_eq!(c.compare(&a, &b), KeyOrder::Less);
    assert_eq!(c.compare(&b, &a), KeyOrder::Greater);
    assert_eq!(c.compare(&a, &a), KeyOrder::Equal);
    assert_eq!(c.compare(&a, &d), KeyOrder::Less);
}

#[test]
fn lookup_key_views() {
    // The key is the internal key's length, then the internal key: user key and fixed64 tag.
    let lk = LookupKey::new(b"foo", 1);
    assert_eq!(lk.memtable_key(), &[11, b'f', b'o', b'o', 1, 1, 0, 0, 0, 0, 0, 0][..]);
    assert_eq!(lk.internal_key(), InternalKey::new(b"foo", 1, TypeValue).encode());
    assert_eq!(lk.user_key(), b"foo");
    let lk = LookupKey::new(b"user", 1 << 48);
    assert_eq!(lk.internal_key().len(), 4 + 8);
    assert_eq!(lk.user_key(), b"user");
    let lk = LookupKey::new(b"", 3);
    assert_eq!(lk.user_key(), b"");
}

#[test]
fn short_internal_key_debug_string_is_bad() {
    let k = InternalKey::decode_from(b"abc").unwrap();
    assert_eq!(k.debug_string(), "(bad)");
}
