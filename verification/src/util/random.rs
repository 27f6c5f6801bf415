//! A small pseudo-random generator: the Park-Miller "minimal standard" sequence.
use vstd::prelude::*;

verus! {

/// The modulus 2^31 - 1.
pub const RANDOM_MODULUS: u32 = 2147483647;

/// The multiplier.
pub const RANDOM_MULTIPLIER: u64 = 16807;

/// The seed after `s`: `s * 16807` reduced modulo 2^31 - 1, except that a nonzero
/// multiple of the modulus gives the modulus itself.
pub open spec fn next_seed(s: u32) -> u32 {
    let p = s * RANDOM_MULTIPLIER;
    if p % (RANDOM_MODULUS as int) == 0 && p > 0 {
        RANDOM_MODULUS
    } else {
        (p % (RANDOM_MODULUS as int)) as u32
    }
}

/// The seeds a generator passes through: from 1 to 2^31 - 2.
pub open spec fn seed_in_range(s: u32) -> bool {
    1 <= s < RANDOM_MODULUS
}

/// Law: a seed in range is followed by a seed in range. The multiplier has an inverse
/// modulo 2^31 - 1, so no seed in range times the multiplier is a multiple of the modulus.
pub proof fn lemma_next_seed_in_range(s: u32)
    requires
        seed_in_range(s),
    ensures
        seed_in_range(next_seed(s)),
{
    let m: int = RANDOM_MODULUS as int;
    let si: int = s as int;
    let p: int = si * 16807;
    let inv: int = 1407677000;
    if p % m == 0 {
        assert((p * inv) % m == 0) by {
            vstd::arithmetic::div_mod::lemma_mul_mod_noop_left(p, inv, m);
        }
        assert(p * inv == si * (16807 * inv)) by (nonlinear_arith)
            requires
                p == si * 16807,
        ;
        assert((16807 * inv) % m == 1);
        assert((si * (16807 * inv)) % m == si % m) by {
            vstd::arithmetic::div_mod::lemma_mul_mod_noop_right(si, 16807 * inv, m);
        }
        assert(si % m == si);
    }
    vstd::arithmetic::div_mod::lemma_mod_bound(p, m);
}

/// The seed a generator starts from: the low 31 bits of `s`, with 0 and 2^31 - 1
/// replaced by 1.
pub open spec fn initial_seed(s: u32) -> u32 {
    let seed = s % 0x8000_0000;
    if seed == 0 || seed == RANDOM_MODULUS {
        1
    } else {
        seed
    }
}

/// A pseudo-random generator.
pub struct Random {
    seed: u32,
}

impl Random {
    /// The current seed.
    pub closed spec fn spec_seed(&self) -> u32 {
        self.seed
    }

    /// The seed lies from 1 to 2^31 - 2.
    pub closed spec fn wf(&self) -> bool {
        seed_in_range(self.seed)
    }

    /// A generator seeded with `s`.
    pub fn new(s: u32) -> (r: Self)
        ensures
            r.wf(),
            r.spec_seed() == initial_seed(s),
    {
        let mut seed = s & 0x7fffffff;
        assert(s & 0x7fffffff == s % 0x8000_0000) by (bit_vector);
        if seed == 0 || seed == 2147483647 {
            seed = 1;
        }
        Self { seed }
    }

    /// Advances the generator and returns the new seed.
    pub fn next(&mut self) -> (r: u32)
        requires
            old(self).wf(),
        ensures
            final(self).wf(),
            r == final(self).spec_seed(),
            r == next_seed(old(self).spec_seed()),
    {
        let m: u32 = RANDOM_MODULUS;
        let a: u64 = RANDOM_MULTIPLIER;
        let s = self.seed;
        let product = (s as u64) * a;
        let hi = product >> 31;
        let lo = product & (m as u64);
        proof {
            assert(product == s * 16807);
            assert(hi == product / 0x8000_0000) by (bit_vector)
                requires
                    hi == product >> 31,
            ;
            assert(lo == product % 0x8000_0000) by (bit_vector)
                requires
                    lo == product & 0x7fff_ffffu64,
            ;
            assert(product == 0x8000_0000 * hi + lo) by (nonlinear_arith)
                requires
                    hi == product / 0x8000_0000,
                    lo == product % 0x8000_0000,
            ;
            assert(hi < 0x8000) by (nonlinear_arith)
                requires
                    hi == product / 0x8000_0000,
                    product == s * 16807,
                    s <= 2147483647,
            ;
            assert((hi + lo) % 2147483647 == product % 2147483647) by (nonlinear_arith)
                requires
                    product == 0x8000_0000 * hi + lo,
            ;
        }
        let mut seed = (hi + lo) as u32;
        if seed > m {
            seed = seed - m;
        }
        proof {
            let v = hi + lo;
            assert(v < 2 * 2147483647);
            if v > 2147483647 {
                assert((v - 2147483647) % 2147483647 == v % 2147483647) by (nonlinear_arith)
                    requires
                        v > 2147483647,
                ;
            }
            assert(product > 0);
            lemma_next_seed_in_range(s);
        }
        self.seed = seed;
        seed
    }

    /// A value in `0..n`.
    pub fn uniform(&mut self, n: u32) -> (r: u32)
        requires
            old(self).wf(),
            n > 0,
        ensures
            final(self).wf(),
            final(self).spec_seed() == next_seed(old(self).spec_seed()),
            r == next_seed(old(self).spec_seed()) % n,
    {
        self.next() % n
    }

    /// True for about one call in `n`: when the next value is a multiple of `n`.
    pub fn one_in(&mut self, n: u32) -> (r: bool)
        requires
            old(self).wf(),
            n > 0,
        ensures
            final(self).wf(),
            final(self).spec_seed() == next_seed(old(self).spec_seed()),
            r == (next_seed(old(self).spec_seed()) % n == 0),
    {
        (self.next() % n) == 0
    }

    /// A value below `2^max_log`, biased towards small ones: a bit count is drawn from
    /// `0..=max_log`, then a value of that many bits.
    pub fn skewed(&mut self, max_log: u32) -> (r: u32)
        requires
            old(self).wf(),
            max_log < 32,
        ensures
            final(self).wf(),
            ({
                let s1 = next_seed(old(self).spec_seed());
                let t = s1 % ((max_log + 1) as u32);
                &&& final(self).spec_seed() == next_seed(s1)
                &&& r == next_seed(s1) % ((1u32 << t) as u32)
            }),
    {
        let t = self.uniform(max_log + 1);
        assert(1u32 << t > 0) by (bit_vector)
            requires
                t < 32,
        ;
        self.uniform(1u32 << t)
    }
}

} // verus!
