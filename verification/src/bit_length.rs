//! How many bits a number takes, from its count of leading zeros.

use vstd::arithmetic::power2::{lemma2_to64, lemma_pow2_pos, pow2};
use vstd::bits::{lemma_u32_shr_is_div, lemma_u64_shr_is_div};
use vstd::prelude::*;
use vstd::std_specs::bits::{
    axiom_u32_leading_zeros, axiom_u64_leading_zeros, u32_leading_zeros, u64_leading_zeros,
};

verus! {

/// The number of bits in a `usize`.
pub const USIZE_BITS: usize = usize::BITS as usize;

/// The position of the highest set bit of `y`, read off its leading zeros.
pub proof fn lemma_u32_bit_length(y: u32)
    ensures
        u32_leading_zeros(y) <= 32,
        y < pow2((32 - u32_leading_zeros(y)) as nat),
        u32_leading_zeros(y) < 32 ==> pow2((31 - u32_leading_zeros(y)) as nat) <= y,
{
    axiom_u32_leading_zeros(y);
    let lz = u32_leading_zeros(y);
    if lz == 0 {
        lemma2_to64();
    } else {
        let k: u32 = (32 - lz) as u32;
        lemma_u32_shr_is_div(y, k);
        lemma_pow2_pos(k as nat);
        assert(y < pow2(k as nat)) by (nonlinear_arith)
            requires
                y as nat / pow2(k as nat) == 0,
                pow2(k as nat) > 0,
        ;
    }
    if lz < 32 {
        let s: u32 = (31 - lz) as u32;
        let top: u32 = y >> s;
        assert(top & 1u32 != 0u32 ==> top >= 1u32) by (bit_vector);
        lemma_u32_shr_is_div(y, s);
        lemma_pow2_pos(s as nat);
        assert(pow2(s as nat) <= y) by (nonlinear_arith)
            requires
                y as nat / pow2(s as nat) >= 1,
                pow2(s as nat) > 0,
        ;
    }
}

/// The position of the highest set bit of `y`, read off its leading zeros.
pub proof fn lemma_u64_bit_length(y: u64)
    ensures
        u64_leading_zeros(y) <= 64,
        y < pow2((64 - u64_leading_zeros(y)) as nat),
        u64_leading_zeros(y) < 64 ==> pow2((63 - u64_leading_zeros(y)) as nat) <= y,
{
    axiom_u64_leading_zeros(y);
    let lz = u64_leading_zeros(y);
    if lz == 0 {
        lemma2_to64();
    } else {
        let k: u64 = (64 - lz) as u64;
        lemma_u64_shr_is_div(y, k);
        lemma_pow2_pos(k as nat);
        assert(y < pow2(k as nat)) by (nonlinear_arith)
            requires
                y as nat / pow2(k as nat) == 0,
                pow2(k as nat) > 0,
        ;
    }
    if lz < 64 {
        let s: u64 = (63 - lz) as u64;
        let top: u64 = y >> s;
        assert(top & 1u64 != 0u64 ==> top >= 1u64) by (bit_vector);
        lemma_u64_shr_is_div(y, s);
        lemma_pow2_pos(s as nat);
        assert(pow2(s as nat) <= y) by (nonlinear_arith)
            requires
                y as nat / pow2(s as nat) >= 1,
                pow2(s as nat) > 0,
        ;
    }
}

} // verus!
