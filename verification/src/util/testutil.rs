//! Random strings, keys and numbers for exercising the engine.
use crate::util::text::{lossy_text, utf8_lossy};
use rand::rngs::ThreadRng;
use rand::Rng;
use vstd::prelude::*;

verus! {

#[verifier::external_type_specification]
#[verifier::external_body]
pub struct ExThreadRng(ThreadRng);

/// `Rng::gen_range` over `0..n`: some number below `n`. Which one is up to the generator.
#[verifier::external_body]
fn gen_below(rng: &mut ThreadRng, n: u64) -> (r: u64)
    requires
        n > 0,
    ensures
        r < n,
{
    rng.gen_range(0..n)
}

/// The bytes a random key is made of, chosen to sit at the edges of the byte order.
pub open spec fn test_char_spec(i: int) -> u8 {
    if i == 0 {
        0x00
    } else if i == 1 {
        0x01
    } else if i == 2 {
        0x61
    } else if i == 3 {
        0x62
    } else if i == 4 {
        0x63
    } else if i == 5 {
        0x64
    } else if i == 6 {
        0x65
    } else if i == 7 {
        0xfd
    } else if i == 8 {
        0xfe
    } else {
        0xff
    }
}

/// `b` is one of the ten bytes random keys are made of.
pub open spec fn is_test_char(b: u8) -> bool {
    b == 0x00 || b == 0x01 || (0x61 <= b <= 0x65) || b >= 0xfd
}

/// Byte `i` of the ten that random keys are made of.
fn test_char(i: u64) -> (r: u8)
    requires
        i < 10,
    ensures
        r == test_char_spec(i as int),
        is_test_char(r),
{
    match i {
        0 => 0x00,
        1 => 0x01,
        2 => 0x61,
        3 => 0x62,
        4 => 0x63,
        5 => 0x64,
        6 => 0x65,
        7 => 0xfd,
        8 => 0xfe,
        _ => 0xff,
    }
}

/// `b` has `len` bytes, each a printable ASCII character.
pub open spec fn printable_bytes(b: Seq<u8>, len: int) -> bool {
    &&& b.len() == if len > 0 { len } else { 0 }
    &&& forall|i: int| 0 <= i < b.len() ==> 32 <= #[trigger] b[i] < 127
}

/// A string of `len` printable ASCII characters drawn by `rng` (none when `len` is not
/// positive).
pub fn random_string(rng: &mut ThreadRng, len: i32) -> (r: String)
    ensures
        exists|b: Seq<u8>| printable_bytes(b, len as int) && r@ == #[trigger] lossy_text(b),
{
    let mut bytes: Vec<u8> = Vec::new();
    let mut i: i32 = 0;
    while i < len
        invariant
            0 <= i,
            len > 0 ==> i <= len,
            len <= 0 ==> i == 0,
            bytes@.len() == i,
            forall|j: int| 0 <= j < bytes@.len() ==> 32 <= #[trigger] bytes@[j] < 127,
        decreases len - i,
    {
        let c = gen_below(rng, 95);
        bytes.push(32 + c as u8);
        i = i + 1;
    }
    let r = utf8_lossy(bytes.as_slice());
    assert(printable_bytes(bytes@, len as int));
    assert(r@ == lossy_text(bytes@));
    r
}

/// A key of `len` bytes drawn by `rng` from ten that sit at the edges of the byte order
/// (none when `len` is not positive).
pub fn random_key(rng: &mut ThreadRng, len: i32) -> (r: Vec<u8>)
    ensures
        r@.len() == if len > 0 { len as int } else { 0 },
        forall|i: int| 0 <= i < r@.len() ==> is_test_char(#[trigger] r@[i]),
{
    let mut result: Vec<u8> = Vec::new();
    let mut i: i32 = 0;
    while i < len
        invariant
            0 <= i,
            len > 0 ==> i <= len,
            len <= 0 ==> i == 0,
            result@.len() == i,
            forall|j: int| 0 <= j < result@.len() ==> is_test_char(#[trigger] result@[j]),
        decreases len - i,
    {
        let idx = gen_below(rng, 10);
        let c = test_char(idx);
        result.push(c);
        i = i + 1;
    }
    result
}

/// A number below 2^k for a `k` drawn by `rng` from 0 to `max_log`; the power is taken
/// with the shift wrapping at 32 bits.
pub fn skewed(rng: &mut ThreadRng, max_log: u32) -> (r: u32)
    ensures
        exists|k: u32| k <= max_log && r < #[trigger] 1u32.wrapping_shl(k),
{
    let base = gen_below(rng, max_log as u64 + 1) as u32;
    let bound = 1u32.wrapping_shl(base);
    assert(1u32.wrapping_shl(base) > 0) by (bit_vector);
    let r = gen_below(rng, bound as u64) as u32;
    r
}

} // verus!
