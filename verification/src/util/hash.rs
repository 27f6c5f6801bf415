//! A 32-bit hash of byte strings in the style of murmur hashing: whole
//! little-endian words are mixed in one at a time, then the trailing bytes.
use crate::util::coding::fixed32_value;
use vstd::prelude::*;

verus! {

/// The multiplier of every mixing step.
pub const HASH_MULTIPLIER: u32 = 0xc6a4a793;

/// `(a + b) * HASH_MULTIPLIER`, wrapping at 32 bits.
pub open spec fn add_mul(a: u32, b: int) -> u32 {
    ((((a + b) % 0x1_0000_0000) * HASH_MULTIPLIER) % 0x1_0000_0000) as u32
}

/// The state after mixing the word `w` into `h`.
pub open spec fn mix_word(h: u32, w: u32) -> u32 {
    let a = add_mul(h, w as int);
    a ^ (a >> 16u32)
}

/// The state after mixing in the first `k` whole words of `data`, starting from `h`.
pub open spec fn mix_words(h: u32, data: Seq<u8>, k: nat) -> u32
    decreases k,
{
    if k == 0 {
        h
    } else {
        let k1 = (k - 1) as nat;
        mix_word(mix_words(h, data, k1), fixed32_value(data.subrange(4 * k1 as int, 4 * k as int)))
    }
}

/// The little-endian number made of the (at most three) bytes of `tail`.
pub open spec fn tail_value(tail: Seq<u8>) -> int {
    (if tail.len() >= 3 { tail[2] * 0x10000 } else { 0int }) + (if tail.len() >= 2 {
        tail[1] * 0x100
    } else {
        0int
    }) + (if tail.len() >= 1 { tail[0] as int } else { 0int })
}

/// The state after mixing in the trailing bytes `tail`, fewer than four.
pub open spec fn mix_tail(h: u32, tail: Seq<u8>) -> u32 {
    if tail.len() == 0 {
        h
    } else {
        let a = add_mul(h, tail_value(tail));
        a ^ (a >> 24u32)
    }
}

/// The hash of `data` under `seed`.
pub open spec fn hash_of(data: Seq<u8>, seed: u32) -> u32 {
    let n = data.len();
    let k = n / 4;
    let start = seed ^ (((n * HASH_MULTIPLIER) % 0x1_0000_0000) as u32);
    mix_tail(mix_words(start, data, k), data.subrange(4 * k as int, n as int))
}

/// `(a + b) * HASH_MULTIPLIER`, wrapping at 32 bits.
fn add_mul_exec(a: u32, b: u32) -> (r: u32)
    ensures
        r == add_mul(a, b as int),
{
    a.wrapping_add(b).wrapping_mul(HASH_MULTIPLIER)
}

/// The little-endian word made of the four bytes of `s` from `p` on.
pub(crate) fn word_at(s: &[u8], p: usize) -> (r: u32)
    requires
        p + 4 <= s@.len(),
    ensures
        r == fixed32_value(s@.subrange(p as int, p + 4)),
{
    let w: u32 = s[p] as u32 + (s[p + 1] as u32) * 0x100 + (s[p + 2] as u32) * 0x10000 + (s[p
        + 3] as u32) * 0x1000000;
    let ghost sub = s@.subrange(p as int, p + 4);
    assert(sub[0] == s@[p as int] && sub[1] == s@[p + 1] && sub[2] == s@[p + 2] && sub[3] == s@[p
        + 3]);
    w
}

/// The hash of `data` under `seed`.
pub fn hash(data: &[u8], seed: u32) -> (r: u32)
    ensures
        r == hash_of(data@, seed),
{
    let n = data.len();
    let n32 = (n as u64 % 0x1_0000_0000u64) as u32;
    let mut h: u32 = seed ^ n32.wrapping_mul(HASH_MULTIPLIER);
    proof {
        assert(((n * HASH_MULTIPLIER) % 0x1_0000_0000) == ((n32 * HASH_MULTIPLIER)
            % 0x1_0000_0000)) by (nonlinear_arith)
            requires
                n32 == (n as int) % 0x1_0000_0000,
        ;
    }
    let ghost start = h;
    let words = n / 4;
    let mut i: usize = 0;
    while i < words
        invariant
            words == data@.len() / 4,
            n == data@.len(),
            i <= words,
            h == mix_words(start, data@, i as nat),
        decreases words - i,
    {
        let w = word_at(data, 4 * i);
        let a = add_mul_exec(h, w);
        h = a ^ (a >> 16);
        i = i + 1;
    }
    let rest = n - 4 * words;
    let ghost tail = data@.subrange(4 * words as int, n as int);
    if rest > 0 {
        let base = 4 * words;
        let mut t: u32 = data[base] as u32;
        if rest >= 2 {
            t = t + (data[base + 1] as u32) * 0x100;
        }
        if rest >= 3 {
            t = t + (data[base + 2] as u32) * 0x10000;
        }
        assert(t == tail_value(tail));
        let a = add_mul_exec(h, t);
        h = a ^ (a >> 24);
    }
    h
}

} // verus!
