use mencius::util::coding::{
    decode_fixed32, decode_fixed64, encode_varint32, encode_varint64, get_length_prefixed_slice,
    get_varint32, get_varint64, put_fixed32, put_fixed64, put_length_prefixed_slice, put_varint32,
    put_varint64, varint_length,
};

#[test]
fn test_fixed32() {
    let mut s = Vec::new();
    for v in 0..100000u32 {
        s.extend_from_slice(&put_fixed32(v));
    }

    let mut p = s.as_slice();
    for v in 0..100000u32 {
        let actual = decode_fixed32(p);
        assert_eq!(v, actual);
        p = &p[4..];
    }
}

#[test]
fn test_fixed64() {
    let mut s = Vec::new();
    for power in 0..=63 {
        let v = 1u64 << power;
        s.extend_from_slice(&put_fixed64(v - 1));
        s.extend_from_slice(&put_fixed64(v));
        s.extend_from_slice(&put_fixed64(v + 1));
    }

    let mut p = s.as_slice();
    for power in 0..=63 {
        let v = 1u64 << power;
        let actual = decode_fixed64(p);
        assert_eq!(v - 1, actual);
        p = &p[8..];

        let actual = decode_fixed64(p);
        assert_eq!(v, actual);
        p = &p[8..];

        let actual = decode_fixed64(p);
        assert_eq!(v + 1, actual);
        p = &p[8..];
    }
}

#[test]
fn test_encoding_output() {
    let dst = put_fixed32(0x04030201u32);
    assert_eq!(4, dst.len());
    assert_eq!(0x01, dst[0]);
    assert_eq!(0x02, dst[1]);
    assert_eq!(0x03, dst[2]);
    assert_eq!(0x04, dst[3]);

    let dst = put_fixed64(0x0807060504030201u64);
    assert_eq!(8, dst.len());
    assert_eq!(0x01, dst[0]);
    assert_eq!(0x02, dst[1]);
    assert_eq!(0x03, dst[2]);
    assert_eq!(0x04, dst[3]);
    assert_eq!(0x05, dst[4]);
    assert_eq!(0x06, dst[5]);
    assert_eq!(0x07, dst[6]);
    assert_eq!(0x08, dst[7]);
}

#[test]
fn test_varint32() {
    let mut s = Vec::new();
    for i in 0..(32 * 32) {
        let v: u32 = (i / 32) << (i % 32);
        s.extend_from_slice(&put_varint32(v));
    }

    let mut p = s.as_slice();
    for i in 0..(32 * 32) {
        let expected: u32 = (i / 32) << (i % 32);
        let (consumed, actual) = get_varint32(p).unwrap();
        assert_eq!(expected, actual);
        assert_eq!(encode_varint32(actual).len(), consumed);
        p = &p[consumed..];
    }
    assert!(p.is_empty());
}

#[test]
fn test_varint64() {
    let mut values = vec![0, 100, u64::MAX, u64::MAX - 1];
    for k in 0..64 {
        let power = 1u64 << k;
        values.push(power);
        values.push(power - 1);
        values.push(power + 1);
    }

    let mut s = Vec::new();
    for &value in &values {
        s.extend_from_slice(&put_varint64(value));
    }

    let mut p = s.as_slice();
    for &expected in &values {
        let (consumed, actual) = get_varint64(p).unwrap();
        assert_eq!(expected, actual);
        assert_eq!(encode_varint64(actual).len(), consumed);
        p = &p[consumed..];
    }
    assert!(p.is_empty());
}

#[test]
fn test_varint32_overflow() {
    let input = vec![0x81, 0x82, 0x83, 0x84, 0x85, 0x11];
    assert!(get_varint32(&input).is_none());
}

#[test]
fn test_varint32_truncation() {
    let large_value = (1u32 << 31) + 100;
    let s = put_varint32(large_value);
    for len in 0..s.len() - 1 {
        assert!(get_varint32(&s[..len]).is_none());
    }
    let (_, result) = get_varint32(&s).unwrap();
    assert_eq!(large_value, result);
}

#[test]
fn test_varint64_overflow() {
    let input = vec![0x81, 0x82, 0x83, 0x84, 0x85, 0x81, 0x82, 0x83, 0x84, 0x85, 0x11];
    assert!(get_varint64(&input).is_none());
}

#[test]
fn test_varint64_truncation() {
    let large_value = (1u64 << 63) + 100;
    let s = put_varint64(large_value);
    for len in 0..s.len() - 1 {
        assert!(get_varint64(&s[..len]).is_none());
    }
    let (_, result) = get_varint64(&s).unwrap();
    assert_eq!(large_value, result);
}

#[test]
fn test_strings() {
    let mut s = Vec::new();
    let empty = vec![];
    s.extend_from_slice(&put_length_prefixed_slice(&empty));
    s.extend_from_slice(&put_length_prefixed_slice(b"foo"));
    s.extend_from_slice(&put_length_prefixed_slice(b"bar"));
    s.extend_from_slice(&put_length_prefixed_slice(&vec![b'x'; 200]));

    let mut input = s.as_slice();
    let (consumed, v) = get_length_prefixed_slice(input).unwrap();
    assert_eq!(b"", v);
    input = &input[consumed..];

    let (consumed, v) = get_length_prefixed_slice(input).unwrap();
    assert_eq!(b"foo", v);
    input = &input[consumed..];

    let (consumed, v) = get_length_prefixed_slice(input).unwrap();
    assert_eq!(b"bar", v);
    input = &input[consumed..];

    let (consumed, v) = get_length_prefixed_slice(input).unwrap();
    assert_eq!(vec![b'x'; 200], v);
    input = &input[consumed..];

    assert!(input.is_empty());
}

#[test]
fn varint_bytes_are_seven_bits_at_a_time() {
    assert_eq!(put_varint32(0), vec![0]);
    assert_eq!(put_varint32(127), vec![127]);
    assert_eq!(put_varint32(128), vec![0x80, 0x01]);
    assert_eq!(put_varint32(300), vec![0xac, 0x02]);
    assert_eq!(put_varint64(u64::MAX).len(), 10);
    assert_eq!(varint_length(300), 2);
    assert_eq!(varint_length(u64::MAX), 10);
}

#[test]
fn length_prefixed_slice_longer_than_input_is_none() {
    // A length prefix of 5 followed by only three bytes.
    assert!(get_length_prefixed_slice(&[5, b'a', b'b', b'c']).is_none());
    assert!(get_length_prefixed_slice(&[]).is_none());
}

#[test]
fn fixed_roundtrip_law_on_values() {
    for v in [0u32, 1, 0xff, 0x100, 0xdead_beef, u32::MAX] {
        assert_eq!(decode_fixed32(&put_fixed32(v)), v);
    }
    for v in [0u64, 1, 0x1_0000_0000, u64::MAX] {
        assert_eq!(decode_fixed64(&put_fixed64(v)), v);
    }
}

#[test]
fn truncated_varints_do_not_decode() {
    for v in [0u32, 127, 128, 300, 1 << 21, u32::MAX] {
        let s = mencius::util::coding::put_varint32(v);
        for k in 0..s.len() {
            assert!(mencius::util::coding::get_varint32(&s[..k]).is_none());
        }
        assert_eq!(mencius::util::coding::get_varint32(&s), Some((s.len(), v)));
    }
    for v in [0u64, 100, 1 << 35, u64::MAX - 1, u64::MAX] {
        let s = mencius::util::coding::put_varint64(v);
        for k in 0..s.len() {
            assert!(mencius::util::coding::get_varint64(&s[..k]).is_none());
        }
    }
}
