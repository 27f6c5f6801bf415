//! Fixed-width little-endian integers and base-128 varints.
use crate::util::bytes::append_slice;
use vstd::arithmetic::power2::{lemma2_to64, lemma_pow2_adds, pow2};
use vstd::prelude::*;

verus! {

// ---------------------------------------------------------------------------
// Mathematical model
// ---------------------------------------------------------------------------
/// The four little-endian bytes of `v`.
pub open spec fn fixed32_bytes(v: u32) -> Seq<u8> {
    seq![
        (v % 0x100) as u8,
        ((v / 0x100) % 0x100) as u8,
        ((v / 0x10000) % 0x100) as u8,
        ((v / 0x1000000) % 0x100) as u8,
    ]
}

/// The eight little-endian bytes of `v`.
pub open spec fn fixed64_bytes(v: u64) -> Seq<u8> {
    fixed32_bytes((v % 0x1_0000_0000) as u32) + fixed32_bytes((v / 0x1_0000_0000) as u32)
}

/// The number whose little-endian encoding is the first four bytes of `b`.
pub open spec fn fixed32_value(b: Seq<u8>) -> u32 {
    (b[0] + 0x100 * b[1] + 0x10000 * b[2] + 0x1000000 * b[3]) as u32
}

/// The number whose little-endian encoding is the first eight bytes of `b`.
pub open spec fn fixed64_value(b: Seq<u8>) -> u64 {
    (fixed32_value(b) + 0x1_0000_0000 * fixed32_value(b.subrange(4, 8))) as u64
}

/// The varint encoding of `v`: seven bits per byte, least significant group first,
/// the high bit set on every byte but the last.
pub open spec fn varint_bytes(v: nat) -> Seq<u8>
    decreases v,
{
    if v < 128 {
        seq![v as u8]
    } else {
        seq![(v % 128 + 128) as u8] + varint_bytes(v / 128)
    }
}

/// The number of bytes of the varint at the front of `p`, if a byte below 128 ends it
/// within the first `limit` bytes.
pub open spec fn varint_size(p: Seq<u8>, limit: nat) -> Option<nat>
    decreases limit,
{
    if limit == 0 || p.len() == 0 {
        None
    } else if p[0] < 128 {
        Some(1nat)
    } else {
        match varint_size(p.drop_first(), (limit - 1) as nat) {
            Some(n) => Some(n + 1),
            None => None,
        }
    }
}

/// The value carried by the low seven bits of the first `n` bytes of `p`.
pub open spec fn varint_value(p: Seq<u8>, n: nat) -> nat
    decreases n,
{
    if n == 0 || p.len() == 0 {
        0
    } else {
        (p[0] % 128) as nat + 128 * varint_value(p.drop_first(), (n - 1) as nat)
    }
}

/// What `get_varint32` makes of `p`: the bytes consumed and the value, reduced modulo 2^32.
pub open spec fn spec_get_varint32(p: Seq<u8>) -> Option<(nat, u32)> {
    match varint_size(p, 5) {
        Some(n) => Some((n, (varint_value(p, n) % 0x1_0000_0000) as u32)),
        None => None,
    }
}

/// What `get_varint64` makes of `p`: the bytes consumed and the value, reduced modulo 2^64.
pub open spec fn spec_get_varint64(p: Seq<u8>) -> Option<(nat, u64)> {
    match varint_size(p, 10) {
        Some(n) => Some((n, (varint_value(p, n) % 0x1_0000_0000_0000_0000) as u64)),
        None => None,
    }
}

/// What `get_length_prefixed_slice` makes of `p`: the bytes consumed and the payload.
pub open spec fn spec_get_length_prefixed(p: Seq<u8>) -> Option<(nat, Seq<u8>)> {
    match spec_get_varint32(p) {
        Some((n, len)) => if n + len <= p.len() {
            Some(((n + len) as nat, p.subrange(n as int, n + len)))
        } else {
            None
        },
        None => None,
    }
}

/// The length-prefixed encoding of `v`.
pub open spec fn length_prefixed_bytes(v: Seq<u8>) -> Seq<u8> {
    varint_bytes((v.len() as u32) as nat) + v
}

// ---------------------------------------------------------------------------
// Lemmas
// ---------------------------------------------------------------------------
pub proof fn lemma_varint_bytes_len(v: nat)
    ensures
        1 <= varint_bytes(v).len(),
        v < pow2(7 * (varint_bytes(v).len() as nat)),
        varint_bytes(v).len() > 1 ==> v >= pow2(7 * ((varint_bytes(v).len() - 1) as nat)),
    decreases v,
{
    lemma2_to64();
    if v >= 128 {
        lemma_varint_bytes_len(v / 128);
        let k = varint_bytes(v / 128).len();
        lemma_pow2_adds(7, 7 * k as nat);
        if k > 1 {
            lemma_pow2_adds(7, 7 * (k - 1) as nat);
        }
    }
}

/// Every byte of a varint but the last has its high bit set, and the last does not.
pub proof fn lemma_varint_continuation_bits(v: nat)
    ensures
        forall|i: int| 0 <= i < varint_bytes(v).len() - 1 ==> #[trigger] varint_bytes(v)[i] >= 128,
        varint_bytes(v).last() < 128,
    decreases v,
{
    if v >= 128 {
        lemma_varint_continuation_bits(v / 128);
        let t = varint_bytes(v / 128);
        assert forall|i: int| 0 <= i < varint_bytes(v).len() - 1 implies #[trigger] varint_bytes(v)[i] >= 128 by {
            if i > 0 {
                assert(varint_bytes(v)[i] == t[i - 1]);
            }
        }
        assert(varint_bytes(v).last() == t.last());
    }
}

/// A varint cut short does not decode, whatever the limit.
pub proof fn lemma_varint_truncated(v: nat, k: nat, limit: nat)
    requires
        k < varint_bytes(v).len(),
    ensures
        varint_size(varint_bytes(v).subrange(0, k as int), limit) is None,
    decreases v,
{
    let p = varint_bytes(v).subrange(0, k as int);
    if k > 0 && limit > 0 {
        assert(v >= 128);
        assert(p[0] == (v % 128 + 128) as u8);
        assert(p.drop_first() =~= varint_bytes(v / 128).subrange(0, (k - 1) as int));
        lemma_varint_truncated(v / 128, (k - 1) as nat, (limit - 1) as nat);
    }
}

/// A varint32 cut short does not decode.
pub proof fn lemma_varint32_truncated(v: u32, k: nat)
    requires
        k < varint_bytes(v as nat).len(),
    ensures
        spec_get_varint32(varint_bytes(v as nat).subrange(0, k as int)) is None,
{
    lemma_varint_truncated(v as nat, k, 5);
}

/// A varint64 cut short does not decode.
pub proof fn lemma_varint64_truncated(v: u64, k: nat)
    requires
        k < varint_bytes(v as nat).len(),
    ensures
        spec_get_varint64(varint_bytes(v as nat).subrange(0, k as int)) is None,
{
    lemma_varint_truncated(v as nat, k, 10);
}

/// Values below 2^32 take at most five bytes; all values below 2^64 at most ten.
pub proof fn lemma_varint_bytes_bound(v: nat)
    ensures
        v < 0x1_0000_0000 ==> varint_bytes(v).len() <= 5,
        v < 0x1_0000_0000_0000_0000 ==> varint_bytes(v).len() <= 10,
        varint_bytes(v).len() <= 1 <==> v < 128,
{
    lemma_varint_bytes_len(v);
    let k = varint_bytes(v).len();
    lemma2_to64();
    if k > 5 {
        vstd::arithmetic::power2::lemma_pow2_strictly_increases(32, 7 * (k - 1) as nat);
    }
    if k > 10 {
        vstd::arithmetic::power2::lemma_pow2_strictly_increases(64, 7 * (k - 1) as nat);
    }
    if v >= 128 {
        assert(k == 1 + varint_bytes(v / 128).len());
        lemma_varint_bytes_len(v / 128);
    }
}

/// Decoding the varint at the front of `varint_bytes(v) + rest` finds `v`.
pub proof fn lemma_varint_roundtrip(v: nat, rest: Seq<u8>, limit: nat)
    requires
        varint_bytes(v).len() <= limit,
    ensures
        varint_size(varint_bytes(v) + rest, limit) == Some(varint_bytes(v).len()),
        varint_value(varint_bytes(v) + rest, varint_bytes(v).len()) == v,
    decreases v,
{
    let s = varint_bytes(v) + rest;
    if v >= 128 {
        let t = varint_bytes(v / 128) + rest;
        assert(s.drop_first() =~= t);
        assert(s[0] == (v % 128 + 128) as u8);
        assert(s[0] % 128 == v % 128);
        lemma_varint_roundtrip(v / 128, rest, (limit - 1) as nat);
        assert(varint_value(s, varint_bytes(v).len()) == s[0] % 128 + 128 * varint_value(
            s.drop_first(),
            (varint_bytes(v).len() - 1) as nat,
        ));
    } else {
        assert(s[0] == v);
        assert(varint_value(s, 1) == s[0] % 128 + 128 * varint_value(s.drop_first(), 0));
    }
}

/// A varint ends within its limit only if one byte below 128 ends it.
pub proof fn lemma_varint_size_bounds(p: Seq<u8>, limit: nat)
    ensures
        varint_size(p, limit) matches Some(n) ==> 1 <= n <= limit && n <= p.len() && p[n - 1]
            < 128,
    decreases limit,
{
    if limit > 0 && p.len() > 0 && p[0] >= 128 {
        lemma_varint_size_bounds(p.drop_first(), (limit - 1) as nat);
    }
}

/// The varint value only reads the first `n` bytes.
pub proof fn lemma_varint_value_prefix(p: Seq<u8>, q: Seq<u8>, n: nat)
    requires
        n <= p.len(),
        n <= q.len(),
        p.subrange(0, n as int) == q.subrange(0, n as int),
    ensures
        varint_value(p, n) == varint_value(q, n),
    decreases n,
{
    if n > 0 {
        assert(p[0] == p.subrange(0, n as int)[0]);
        assert(q[0] == q.subrange(0, n as int)[0]);
        assert(p.drop_first().subrange(0, n - 1) =~= q.drop_first().subrange(0, n - 1)) by {
            assert forall|i: int| 0 <= i < n - 1 implies p.drop_first()[i] == q.drop_first()[i] by {
                assert(p[i + 1] == p.subrange(0, n as int)[i + 1]);
                assert(q[i + 1] == q.subrange(0, n as int)[i + 1]);
            }
        }
        lemma_varint_value_prefix(p.drop_first(), q.drop_first(), (n - 1) as nat);
    }
}

/// The varint size only reads the first `limit` bytes, and any bytes past its end.
pub proof fn lemma_varint_size_extend(p: Seq<u8>, rest: Seq<u8>, limit: nat)
    requires
        varint_size(p, limit) is Some,
    ensures
        varint_size(p + rest, limit) == varint_size(p, limit),
        varint_value(p + rest, varint_size(p, limit)->0) == varint_value(
            p,
            varint_size(p, limit)->0,
        ),
    decreases limit,
{
    lemma_varint_size_bounds(p, limit);
    let n = varint_size(p, limit)->0;
    assert((p + rest).subrange(0, n as int) =~= p.subrange(0, n as int));
    lemma_varint_value_prefix(p + rest, p, n);
    if p[0] >= 128 {
        assert((p + rest).drop_first() =~= p.drop_first() + rest);
        lemma_varint_size_extend(p.drop_first(), rest, (limit - 1) as nat);
    }
}

/// Accumulating the seven-bit groups from the front gives the varint value.
proof fn lemma_varint_value_step(p: Seq<u8>, i: nat)
    requires
        i < p.len(),
    ensures
        varint_value(p, i + 1) == varint_value(p, i) + (p[i as int] % 128) as nat * pow2(7 * i),
    decreases i,
{
    lemma2_to64();
    let pd = p.drop_first();
    if i > 0 {
        lemma_varint_value_step(pd, (i - 1) as nat);
        let e = (7 * (i - 1)) as nat;
        assert(7 * i == e + 7);
        lemma_pow2_adds(e, 7);
        assert(pd[i - 1] == p[i as int]);
        let a = varint_value(pd, (i - 1) as nat);
        let b = (p[i as int] % 128) as nat;
        let c = pow2(e);
        assert(varint_value(pd, i) == a + b * c);
        assert(pow2(7 * i) == c * 128);
        assert(128 * (a + b * c) == 128 * a + b * (c * 128)) by (nonlinear_arith);
        assert(varint_value(p, i + 1) == p[0] % 128 + 128 * varint_value(pd, i));
        assert(varint_value(p, i) == p[0] % 128 + 128 * a);
        assert(varint_value(p, i + 1) == varint_value(p, i) + b * pow2(7 * i));
    } else {
        assert(varint_value(p, 1) == p[0] % 128 + 128 * varint_value(pd, 0));
        assert(varint_value(p, 0) == 0);
        assert(pow2(7 * i) == pow2(0));
    }
}

proof fn lemma_varint_value_bound(p: Seq<u8>, i: nat)
    ensures
        varint_value(p, i) < pow2(7 * i),
    decreases i,
{
    lemma2_to64();
    if i > 0 && p.len() > 0 {
        lemma_varint_value_bound(p.drop_first(), (i - 1) as nat);
        lemma_pow2_adds(7, 7 * (i - 1) as nat);
    } else if i > 0 {
        vstd::arithmetic::power2::lemma_pow2_pos(7 * i);
    }
}

// Bit-level facts used by the encoders and decoders.
proof fn lemma_low7_u64(v: u64)
    ensures
        ((v | 128) as u8) == (v % 128 + 128) as u8,
        (v >> 7) == v / 128,
        (v as u8) == v % 256,
{
    assert(((v | 128) as u8) == (v % 128 + 128) as u8) by (bit_vector);
    assert((v >> 7) == v / 128) by (bit_vector);
    assert((v as u8) == v % 256) by (bit_vector);
}

proof fn lemma_low7_u32(v: u32)
    ensures
        ((v | 128) as u8) == (v % 128 + 128) as u8,
        (v >> 7) == v / 128,
        (v >> 14) == v / 16384,
        (v >> 21) == v / 2097152,
        (v >> 28) == v / 268435456,
        (v as u8) == v % 256,
{
    assert(((v | 128) as u8) == (v % 128 + 128) as u8) by (bit_vector);
    assert((v >> 7) == v / 128) by (bit_vector);
    assert((v >> 14) == v / 16384) by (bit_vector);
    assert((v >> 21) == v / 2097152) by (bit_vector);
    assert((v >> 28) == v / 268435456) by (bit_vector);
    assert((v as u8) == v % 256) by (bit_vector);
}

/// Reading back a fixed 32-bit encoding gives the value written, whatever follows it.
pub proof fn lemma_fixed32_roundtrip(v: u32, rest: Seq<u8>)
    ensures
        fixed32_value(fixed32_bytes(v) + rest) == v,
        (fixed32_bytes(v) + rest).len() == 4 + rest.len(),
{
    let s = fixed32_bytes(v) + rest;
    assert(s[0] == v % 0x100 && s[1] == (v / 0x100) % 0x100 && s[2] == (v / 0x10000) % 0x100
        && s[3] == (v / 0x1000000) % 0x100);
}

/// Reading back a fixed 64-bit encoding gives the value written, whatever follows it.
pub proof fn lemma_fixed64_roundtrip(v: u64, rest: Seq<u8>)
    ensures
        fixed64_value(fixed64_bytes(v) + rest) == v,
        fixed64_bytes(v).len() == 8,
{
    let lo = (v % 0x1_0000_0000) as u32;
    let hi = (v / 0x1_0000_0000) as u32;
    let s = fixed64_bytes(v) + rest;
    assert(s =~= fixed32_bytes(lo) + (fixed32_bytes(hi) + rest));
    lemma_fixed32_roundtrip(lo, fixed32_bytes(hi) + rest);
    assert(s.subrange(4, 8) =~= fixed32_bytes(hi) + Seq::<u8>::empty());
    lemma_fixed32_roundtrip(hi, Seq::<u8>::empty());
}

/// Decoding a varint32 written by `encode_varint32` gives its length and value,
/// whatever follows it.
pub proof fn lemma_varint32_roundtrip(v: u32, rest: Seq<u8>)
    ensures
        spec_get_varint32(varint_bytes(v as nat) + rest) == Some(
            (varint_bytes(v as nat).len(), v),
        ),
{
    lemma_varint_bytes_bound(v as nat);
    lemma_varint_roundtrip(v as nat, rest, 5);
}

/// Decoding a varint64 written by `encode_varint64` gives its length and value,
/// whatever follows it.
pub proof fn lemma_varint64_roundtrip(v: u64, rest: Seq<u8>)
    ensures
        spec_get_varint64(varint_bytes(v as nat) + rest) == Some(
            (varint_bytes(v as nat).len(), v),
        ),
{
    lemma_varint_bytes_bound(v as nat);
    lemma_varint_roundtrip(v as nat, rest, 10);
}

/// Decoding a length-prefixed slice written by `put_length_prefixed_slice` gives the
/// bytes consumed and the payload, whatever follows it, when the payload's length fits
/// in 32 bits.
pub proof fn lemma_length_prefixed_roundtrip(v: Seq<u8>, rest: Seq<u8>)
    requires
        v.len() < 0x1_0000_0000,
    ensures
        spec_get_length_prefixed(length_prefixed_bytes(v) + rest) == Some(
            (length_prefixed_bytes(v).len(), v),
        ),
{
    let n = (v.len() as u32);
    let h = varint_bytes(n as nat);
    let s = length_prefixed_bytes(v) + rest;
    assert(s =~= h + (v + rest));
    lemma_varint32_roundtrip(n, v + rest);
    assert(s.subrange(h.len() as int, (h.len() + v.len()) as int) =~= v);
}

// ---------------------------------------------------------------------------
// Fixed-width integers
// ---------------------------------------------------------------------------
/// Reads a little-endian `u32` from the first four bytes of `ptr`.
pub fn decode_fixed32(ptr: &[u8]) -> (r: u32)
    requires
        ptr@.len() >= 4,
    ensures
        r == fixed32_value(ptr@),
{
    let b0 = ptr[0] as u32;
    let b1 = ptr[1] as u32;
    let b2 = ptr[2] as u32;
    let b3 = ptr[3] as u32;
    let r = b0 | (b1 << 8) | (b2 << 16) | (b3 << 24);
    assert(r == b0 + 0x100 * b1 + 0x10000 * b2 + 0x1000000 * b3) by (bit_vector)
        requires
            b0 < 256,
            b1 < 256,
            b2 < 256,
            b3 < 256,
            r == b0 | (b1 << 8) | (b2 << 16) | (b3 << 24),
    ;
    r
}

/// Reads a little-endian `u64` from the first eight bytes of `ptr`.
pub fn decode_fixed64(ptr: &[u8]) -> (r: u64)
    requires
        ptr@.len() >= 8,
    ensures
        r == fixed64_value(ptr@),
{
    let lo = decode_fixed32(ptr) as u64;
    let hi = decode_fixed32(&ptr[4..8]) as u64;
    let r = lo | (hi << 32);
    assert(r == lo + 0x1_0000_0000 * hi) by (bit_vector)
        requires
            lo < 0x1_0000_0000,
            hi < 0x1_0000_0000,
            r == lo | (hi << 32),
    ;
    r
}

/// The four little-endian bytes of `value`.
pub fn encode_fixed32(value: u32) -> (r: Vec<u8>)
    ensures
        r@ == fixed32_bytes(value),
{
    let mut r: Vec<u8> = Vec::with_capacity(4);
    let b0 = (value & 0xff) as u8;
    let b1 = ((value >> 8) & 0xff) as u8;
    let b2 = ((value >> 16) & 0xff) as u8;
    let b3 = ((value >> 24) & 0xff) as u8;
    assert(b0 == value % 0x100 && b1 == (value / 0x100) % 0x100 && b2 == (value / 0x10000) % 0x100
        && b3 == (value / 0x1000000) % 0x100) by (bit_vector)
        requires
            b0 == (value & 0xff) as u8,
            b1 == ((value >> 8) & 0xff) as u8,
            b2 == ((value >> 16) & 0xff) as u8,
            b3 == ((value >> 24) & 0xff) as u8,
    ;
    r.push(b0);
    r.push(b1);
    r.push(b2);
    r.push(b3);
    assert(r@ =~= fixed32_bytes(value));
    r
}

/// The eight little-endian bytes of `value`.
pub fn encode_fixed64(value: u64) -> (r: Vec<u8>)
    ensures
        r@ == fixed64_bytes(value),
{
    let lo = (value & 0xffff_ffff) as u32;
    let hi = (value >> 32) as u32;
    assert(lo == value % 0x1_0000_0000 && hi == value / 0x1_0000_0000) by (bit_vector)
        requires
            lo == (value & 0xffff_ffff) as u32,
            hi == (value >> 32) as u32,
    ;
    let mut r = encode_fixed32(lo);
    let mut h = encode_fixed32(hi);
    r.append(&mut h);
    r
}

/// Same as [`encode_fixed32`].
pub fn put_fixed32(value: u32) -> (r: Vec<u8>)
    ensures
        r@ == fixed32_bytes(value),
{
    encode_fixed32(value)
}

/// Same as [`encode_fixed64`].
pub fn put_fixed64(value: u64) -> (r: Vec<u8>)
    ensures
        r@ == fixed64_bytes(value),
{
    encode_fixed64(value)
}

// ---------------------------------------------------------------------------
// Varints
// ---------------------------------------------------------------------------
/// The number of bytes in the varint encoding of `v`.
pub fn varint_length(v: u64) -> (len: usize)
    ensures
        len == varint_bytes(v as nat).len(),
{
    let mut value = v;
    let mut len: usize = 1;
    proof {
        lemma_varint_bytes_bound(v as nat);
    }
    while value >= 128
        invariant
            len + varint_bytes(value as nat).len() - 1 == varint_bytes(v as nat).len(),
            varint_bytes(v as nat).len() <= 10,
            1 <= len,
        decreases value,
    {
        proof {
            lemma_low7_u64(value);
            lemma_varint_bytes_bound((value / 128) as nat);
        }
        value = value >> 7;
        len = len + 1;
    }
    len
}

/// The varint encoding of `v` (at most five bytes).
pub fn encode_varint32(v: u32) -> (r: Vec<u8>)
    ensures
        r@ == varint_bytes(v as nat),
        r@.len() <= 5,
{
    let mut result: Vec<u8> = Vec::with_capacity(5);
    proof {
        lemma_low7_u32(v);
        lemma_low7_u32(v >> 7);
        lemma_low7_u32(v >> 14);
        lemma_low7_u32(v >> 21);
        reveal_with_fuel(varint_bytes, 6);
        assert(v / 128 / 128 == v / 16384);
        assert(v / 16384 / 128 == v / 2097152);
        assert(v / 2097152 / 128 == v / 268435456);
    }
    let ghost w = v as nat;
    if v < 128 {
        result.push(v as u8);
    } else if v < 16384 {
        result.push((v | 128) as u8);
        result.push((v >> 7) as u8);
        assert(varint_bytes(w) == seq![(w % 128 + 128) as u8] + varint_bytes(w / 128));
    } else if v < 2097152 {
        result.push((v | 128) as u8);
        result.push(((v >> 7) | 128) as u8);
        result.push((v >> 14) as u8);
        assert(varint_bytes(w / 128) == seq![(w / 128 % 128 + 128) as u8] + varint_bytes(
            w / 128 / 128,
        ));
    } else if v < 268435456 {
        result.push((v | 128) as u8);
        result.push(((v >> 7) | 128) as u8);
        result.push(((v >> 14) | 128) as u8);
        result.push((v >> 21) as u8);
        assert(varint_bytes(w / 128 / 128) == seq![(w / 128 / 128 % 128 + 128) as u8]
            + varint_bytes(w / 128 / 128 / 128));
    } else {
        result.push((v | 128) as u8);
        result.push(((v >> 7) | 128) as u8);
        result.push(((v >> 14) | 128) as u8);
        result.push(((v >> 21) | 128) as u8);
        result.push((v >> 28) as u8);
        assert(varint_bytes(w / 128 / 128 / 128) == seq![(w / 128 / 128 / 128 % 128 + 128) as u8]
            + varint_bytes(w / 128 / 128 / 128 / 128));
    }
    assert(result@ =~= varint_bytes(v as nat));
    result
}

/// Same as [`encode_varint32`].
pub fn put_varint32(v: u32) -> (r: Vec<u8>)
    ensures
        r@ == varint_bytes(v as nat),
        r@.len() <= 5,
{
    encode_varint32(v)
}

/// The length of `v` as a varint32 (truncated to 32 bits), followed by `v`.
pub fn put_length_prefixed_slice(v: &[u8]) -> (r: Vec<u8>)
    ensures
        r@ == length_prefixed_bytes(v@),
{
    let mut result = put_varint32(v.len() as u32);
    append_slice(&mut result, v);
    result
}

/// The varint encoding of `v` (at most ten bytes).
pub fn encode_varint64(v: u64) -> (r: Vec<u8>)
    ensures
        r@ == varint_bytes(v as nat),
        r@.len() <= 10,
{
    let mut result: Vec<u8> = Vec::with_capacity(10);
    let mut value = v;
    proof {
        lemma_varint_bytes_bound(v as nat);
    }
    while value >= 128
        invariant
            result@ + varint_bytes(value as nat) == varint_bytes(v as nat),
        decreases value,
    {
        proof {
            lemma_low7_u64(value);
        }
        result.push((value | 128) as u8);
        value = value >> 7;
    }
    proof {
        lemma_low7_u64(value);
    }
    result.push(value as u8);
    assert(result@ =~= varint_bytes(v as nat));
    result
}

/// Same as [`encode_varint64`].
pub fn put_varint64(v: u64) -> (r: Vec<u8>)
    ensures
        r@ == varint_bytes(v as nat),
        r@.len() <= 10,
{
    encode_varint64(v)
}

/// Decodes a varint32 at the front of `v`: the number of bytes read and the value.
pub fn get_varint32(v: &[u8]) -> (r: Option<(usize, u32)>)
    ensures
        match r {
            Some((n, x)) => spec_get_varint32(v@) == Some((n as nat, x)),
            None => spec_get_varint32(v@) is None,
        },
{
    if v.len() > 0 && v[0] & 128 == 0 {
        let byte = v[0];
        proof {
            assert(byte & 128 == 0 ==> byte < 128) by (bit_vector);
            assert(varint_value(v@, 1) == byte % 128 + 128 * varint_value(v@.drop_first(), 0));
        }
        Some((1, byte as u32))
    } else if v.len() > 0 {
        get_varint32_fallback(v)
    } else {
        None
    }
}

/// Decodes a varint32 one byte at a time: at most five bytes are read, and the value is
/// reduced modulo 2^32.
pub fn get_varint32_fallback(v: &[u8]) -> (r: Option<(usize, u32)>)
    ensures
        match r {
            Some((n, x)) => spec_get_varint32(v@) == Some((n as nat, x)),
            None => spec_get_varint32(v@) is None,
        },
{
    let mut result: u32 = 0;
    let mut i: usize = 0;
    while i < v.len()
        invariant
            i <= v@.len(),
            i <= 5,
            forall|j: int| 0 <= j < i ==> v@[j] >= 128,
            i <= 4 ==> result as nat == varint_value(v@, i as nat),
        decreases v@.len() - i,
    {
        let shift = i * 7;
        if shift > 28 {
            proof {
                lemma_size_none_all_continue(v@, i as nat, 5);
            }
            return None;
        }
        let byte = v[i];
        proof {
            lemma_varint_value_step(v@, i as nat);
            lemma_varint_value_bound(v@, (i + 1) as nat);
        }
        if byte & 128 != 0 {
            let low = (byte & 127) as u32;
            proof {
                assert(byte & 128 != 0 ==> byte >= 128) by (bit_vector);
                assert(byte & 127 == byte % 128) by (bit_vector);
                lemma_varint_value_bound(v@, i as nat);
                if i < 4 {
                    lemma_or_shift_u32(result, low, shift as u32, i as nat);
                }
            }
            result = result | (low << (shift as u32));
        } else {
            let low = byte as u32;
            proof {
                assert(byte & 128 == 0 ==> byte < 128) by (bit_vector);
                lemma_varint_value_bound(v@, i as nat);
                lemma_or_shift_u32_mod(result, low, shift as u32, i as nat);
                lemma_size_found(v@, i as nat, 5);
            }
            result = result | (low << (shift as u32));
            return Some((i + 1, result));
        }
        i = i + 1;
    }
    proof {
        lemma_size_none_all_continue(v@, i as nat, 5);
    }
    None
}

/// Decodes a varint64 at the front of `p`: at most ten bytes are read, and the value is
/// reduced modulo 2^64.
pub fn get_varint64(p: &[u8]) -> (r: Option<(usize, u64)>)
    ensures
        match r {
            Some((n, x)) => spec_get_varint64(p@) == Some((n as nat, x)),
            None => spec_get_varint64(p@) is None,
        },
{
    let mut result: u64 = 0;
    let mut i: usize = 0;
    while i < p.len() && i < 10
        invariant
            i <= p@.len(),
            i <= 10,
            forall|j: int| 0 <= j < i ==> p@[j] >= 128,
            i <= 9 ==> result as nat == varint_value(p@, i as nat),
        decreases p@.len() - i,
    {
        let shift = i * 7;
        let byte = p[i];
        proof {
            lemma_varint_value_step(p@, i as nat);
            lemma_varint_value_bound(p@, (i + 1) as nat);
        }
        if byte & 128 != 0 {
            let low = (byte & 127) as u64;
            proof {
                assert(byte & 128 != 0 ==> byte >= 128) by (bit_vector);
                assert(byte & 127 == byte % 128) by (bit_vector);
                lemma_varint_value_bound(p@, i as nat);
                if i < 9 {
                    lemma_pow2_adds(7 * i as nat, 7);
                    vstd::arithmetic::power2::lemma_pow2_strictly_increases(7 * (i + 1) as nat, 64);
                    lemma_or_shift_u64(result, low, shift as u64, i as nat);
                }
            }
            result = result | (low << (shift as u64));
        } else {
            let low = byte as u64;
            proof {
                assert(byte & 128 == 0 ==> byte < 128) by (bit_vector);
                lemma_varint_value_bound(p@, i as nat);
                lemma_or_shift_u64_mod(result, low, shift as u64, i as nat);
                lemma_size_found(p@, i as nat, 10);
            }
            result = result | (low << (shift as u64));
            return Some((i + 1, result));
        }
        i = i + 1;
    }
    proof {
        lemma_size_none_all_continue(p@, i as nat, 10);
    }
    None
}

/// Decodes a varint32 length followed by that many bytes: the number of bytes consumed
/// and the payload. `None` when the varint is bad or the payload runs past the input.
pub fn get_length_prefixed_slice(v: &[u8]) -> (r: Option<(usize, &[u8])>)
    ensures
        match r {
            Some((n, s)) => spec_get_length_prefixed(v@) == Some((n as nat, s@)),
            None => spec_get_length_prefixed(v@) is None,
        },
{
    match get_varint32(v) {
        Some((bytes_read, len)) => {
            proof {
                lemma_varint_size_bounds(v@, 5);
            }
            if v.len() >= len as usize && v.len() - bytes_read >= len as usize {
                Some((bytes_read + len as usize, &v[bytes_read..bytes_read + len as usize]))
            } else {
                None
            }
        },
        None => None,
    }
}

// ---------------------------------------------------------------------------
// Helper lemmas for the decoders
// ---------------------------------------------------------------------------
proof fn lemma_size_found(p: Seq<u8>, i: nat, limit: nat)
    requires
        i < p.len(),
        i < limit,
        forall|j: int| 0 <= j < i ==> p[j] >= 128,
        p[i as int] < 128,
    ensures
        varint_size(p, limit) == Some(i + 1),
    decreases i,
{
    if i > 0 {
        lemma_size_found(p.drop_first(), (i - 1) as nat, (limit - 1) as nat);
    }
}

proof fn lemma_size_none_all_continue(p: Seq<u8>, i: nat, limit: nat)
    requires
        i <= p.len(),
        forall|j: int| 0 <= j < i ==> p[j] >= 128,
        i == p.len() || i >= limit,
    ensures
        varint_size(p, limit) is None,
    decreases limit,
{
    if limit > 0 && p.len() > 0 {
        if i > 0 {
            lemma_size_none_all_continue(p.drop_first(), (i - 1) as nat, (limit - 1) as nat);
        }
    }
}

proof fn lemma_or_shift_u64(acc: u64, low: u64, shift: u64, i: nat)
    requires
        shift == 7 * i,
        i < 10,
        low < 128,
        acc < pow2(7 * i),
        acc + low * pow2(7 * i) < pow2(7 * (i + 1)),
        7 * (i + 1) <= 63,
    ensures
        acc | (low << shift) == acc + low * pow2(7 * i),
{
    lemma2_to64();
    vstd::bits::lemma_u64_pow2_no_overflow(7 * i);
    vstd::bits::lemma_u64_pow2_no_overflow(7 * (i + 1));
    vstd::arithmetic::power2::lemma_pow2_strictly_increases(7 * (i + 1), 64);
    assert(low << shift == low * pow2(shift as nat)) by {
        vstd::bits::lemma_u64_shl_is_mul(low, shift);
    }
    let p = pow2(7 * i) as u64;
    assert(1u64 << shift == p) by {
        vstd::bits::lemma_u64_shl_is_mul(1, shift);
    }
    assert(acc | (low << shift) == acc + (low << shift)) by (bit_vector)
        requires
            acc < (1u64 << shift),
            shift < 64,
    ;
}

proof fn lemma_or_shift_u64_mod(acc: u64, low: u64, shift: u64, i: nat)
    requires
        shift == 7 * i,
        i < 10,
        low < 128,
        acc < pow2(7 * i),
    ensures
        (acc | (low << shift)) as nat == (acc + low * pow2(7 * i)) % 0x1_0000_0000_0000_0000,
{
    lemma2_to64();
    vstd::bits::lemma_u64_pow2_no_overflow(7 * i);
    let p = pow2(7 * i) as u64;
    assert(1u64 << shift == p) by {
        vstd::bits::lemma_u64_shl_is_mul(1, shift);
    }
    if i < 9 {
        vstd::arithmetic::power2::lemma_pow2_adds(7 * i, 7);
        vstd::arithmetic::power2::lemma_pow2_strictly_increases(7 * (i + 1), 64);
        assert(7 * (i + 1) == 7 * i + 7);
        assert(acc + low * pow2(7 * i) < pow2(7 * i) * 128) by (nonlinear_arith)
            requires
                low < 128,
                acc < pow2(7 * i),
        ;
        lemma_or_shift_u64(acc, low, shift, i);
    } else {
        assert(shift == 63);
        assert(acc | (low << shift) == acc + (low % 2) * 0x8000_0000_0000_0000) by (bit_vector)
            requires
                acc < (1u64 << shift),
                shift == 63,
        ;
        vstd::arithmetic::power2::lemma2_to64_rest();
        assert((acc + low * 0x8000_0000_0000_0000) % 0x1_0000_0000_0000_0000 == acc + (low % 2)
            * 0x8000_0000_0000_0000) by (nonlinear_arith)
            requires
                acc < 0x8000_0000_0000_0000,
                low < 128,
        ;
    }
}

proof fn lemma_or_shift_u32(acc: u32, low: u32, shift: u32, i: nat)
    requires
        shift == 7 * i,
        i < 4,
        low < 128,
        acc < pow2(7 * i),
    ensures
        acc | (low << shift) == acc + low * pow2(7 * i),
{
    lemma2_to64();
    vstd::bits::lemma_u32_pow2_no_overflow(7 * i);
    vstd::arithmetic::power2::lemma_pow2_adds(7 * i, 7);
    vstd::arithmetic::power2::lemma_pow2_strictly_increases(7 * (i + 1), 32);
    assert(low * pow2(7 * i) < 128 * pow2(7 * i)) by (nonlinear_arith)
        requires
            low < 128,
            pow2(7 * i) > 0,
    ;
    assert(low << shift == low * pow2(shift as nat)) by {
        vstd::bits::lemma_u32_shl_is_mul(low, shift);
    }
    assert(1u32 << shift == pow2(7 * i)) by {
        vstd::bits::lemma_u32_shl_is_mul(1, shift);
    }
    assert(acc | (low << shift) == acc + (low << shift)) by (bit_vector)
        requires
            acc < (1u32 << shift),
            shift < 32,
    ;
}

proof fn lemma_or_shift_u32_mod(acc: u32, low: u32, shift: u32, i: nat)
    requires
        shift == 7 * i,
        i < 5,
        low < 128,
        acc < pow2(7 * i),
    ensures
        (acc | (low << shift)) as nat == (acc + low * pow2(7 * i)) % 0x1_0000_0000,
{
    lemma2_to64();
    if i < 4 {
        vstd::arithmetic::power2::lemma_pow2_adds(7 * i, 7);
        vstd::arithmetic::power2::lemma_pow2_strictly_increases(7 * (i + 1), 32);
        assert(low * pow2(7 * i) < 128 * pow2(7 * i)) by (nonlinear_arith)
            requires
                low < 128,
                pow2(7 * i) > 0,
        ;
        lemma_or_shift_u32(acc, low, shift, i);
    } else {
        assert(shift == 28);

        assert(acc | (low << shift) == acc + (low % 16) * 0x1000_0000) by (bit_vector)
            requires
                acc < 0x1000_0000,
                shift == 28,
        ;
        assert((acc + low * 0x1000_0000) % 0x1_0000_0000 == acc + (low % 16) * 0x1000_0000)
            by (nonlinear_arith)
            requires
                acc < 0x1000_0000,
                low < 128,
        ;
    }
}

} // verus!
