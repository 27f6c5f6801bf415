//! CRC-32 checksums (the IEEE polynomial, bit-reflected), computed by the `crc32fast`
//! crate.
use vstd::prelude::*;

verus! {

/// One bit step of the reflected CRC-32 register: shift right, folding the polynomial in
/// when the bit shifted out is set.
pub open spec fn crc_bit(x: u32) -> u32 {
    if x & 1 == 1 {
        (x >> 1u32) ^ 0xEDB8_8320u32
    } else {
        x >> 1u32
    }
}

/// The register after taking in byte `b`: eight bit steps after xoring the byte in.
pub open spec fn crc_byte(c: u32, b: u8) -> u32 {
    crc_bit(crc_bit(crc_bit(crc_bit(crc_bit(crc_bit(crc_bit(crc_bit(c ^ (b as u32)))))))))
}

/// The register after taking in `data` from register `c`, byte by byte in order.
pub open spec fn crc_register(c: u32, data: Seq<u8>) -> u32
    decreases data.len(),
{
    if data.len() == 0 {
        c
    } else {
        crc_byte(crc_register(c, data.drop_last()), data.last())
    }
}

/// The CRC-32 state after feeding `data` to a computation in state `init`: the register
/// starts as the complement of `init`, and the state is the complement of the final
/// register. A fresh computation starts from state 0, and the checksum is the final
/// state.
pub open spec fn crc32_extended(init: u32, data: Seq<u8>) -> u32 {
    !crc_register(!init, data)
}

/// Taking in `a` then `b` is taking in `a` followed by `b`.
proof fn lemma_crc_register_append(c: u32, a: Seq<u8>, b: Seq<u8>)
    ensures
        crc_register(crc_register(c, a), b) == crc_register(c, a + b),
    decreases b.len(),
{
    if b.len() == 0 {
        assert(a + b =~= a);
    } else {
        lemma_crc_register_append(c, a, b.drop_last());
        assert((a + b).drop_last() =~= a + b.drop_last());
        assert((a + b).last() == b.last());
    }
}

/// Law: continuing a computation from the checksum of `a` with `b` gives the checksum
/// of `a` followed by `b`.
pub proof fn lemma_crc32_append(init: u32, a: Seq<u8>, b: Seq<u8>)
    ensures
        crc32_extended(crc32_extended(init, a), b) == crc32_extended(init, a + b),
{
    let r = crc_register(!init, a);
    assert(!!r == r) by (bit_vector);
    lemma_crc_register_append(!init, a, b);
}

/// `crc32fast::hash`: the CRC-32 of `data`.
#[verifier::external_body]
pub(crate) fn crc32_of(data: &[u8]) -> (r: u32)
    ensures
        r == crc32_extended(0, data@),
{
    crc32fast::hash(data)
}

/// `Hasher::new_with_initial(init)`, then `update(data)`, then `finalize`: the CRC-32
/// state after feeding `data` to a computation in state `init`.
#[verifier::external_body]
pub(crate) fn crc32_continue(init: u32, data: &[u8]) -> (r: u32)
    ensures
        r == crc32_extended(init, data@),
{
    let mut hasher = crc32fast::Hasher::new_with_initial(init);
    hasher.update(data);
    hasher.finalize()
}

} // verus!
