//! Bit-counting arithmetic on fixed-width unsigned integers.

use crate::bit_length::{lemma_u32_bit_length, lemma_u64_bit_length, USIZE_BITS};
use vstd::arithmetic::power2::{
    lemma2_to64, lemma_pow2_pos, lemma_pow2_strictly_increases, lemma_pow2_unfold, pow2,
};
use vstd::prelude::*;
use vstd::std_specs::bits::{u32_leading_zeros, u64_leading_zeros};

verus! {

/// The least `k` with `2^k >= x`, and zero for `x <= 1`.
pub open spec fn spec_ceil_log2(x: nat) -> nat
    decreases x,
{
    if x <= 1 {
        0
    } else {
        1 + spec_ceil_log2((x + 1) / 2)
    }
}

/// The quotient `a / b` rounded up to the next integer.
pub open spec fn spec_divide_round_up(a: nat, b: nat) -> nat
    recommends
        b > 0,
{
    ((a + b - 1) / (b as int)) as nat
}

/// `spec_ceil_log2(x)` is an exponent whose power of two reaches `x`,
/// and no smaller exponent does.
pub proof fn lemma_ceil_log2_is_least(x: nat)
    requires
        x > 0,
    ensures
        x <= pow2(spec_ceil_log2(x)),
        forall|j: nat| j < spec_ceil_log2(x) ==> pow2(j) < x,
    decreases x,
{
    let k = spec_ceil_log2(x);
    if x <= 1 {
        lemma_pow2_pos(0);
    } else {
        let h = (x + 1) / 2;
        lemma_ceil_log2_is_least(h);
        lemma_pow2_unfold(k);
        assert forall|j: nat| j < k implies pow2(j) < x by {
            if j == 0 {
                lemma2_to64();
            } else {
                let i = (j - 1) as nat;
                assert(pow2(i) < h);
                lemma_pow2_unfold(j);
            }
        }
    }
}

/// An exponent `k` with `2^(k-1) < x <= 2^k` is `spec_ceil_log2(x)`.
pub proof fn lemma_ceil_log2_unique(x: nat, k: nat)
    requires
        x > 0,
        x <= pow2(k),
        k > 0 ==> pow2((k - 1) as nat) < x,
    ensures
        spec_ceil_log2(x) == k,
{
    let c = spec_ceil_log2(x);
    lemma_ceil_log2_is_least(x);
    if k < c {
        assert(pow2(k) < x);
    } else if c < k {
        if c < k - 1 {
            lemma_pow2_strictly_increases(c, (k - 1) as nat);
        }
    }
}

/// Rounding a quotient up adds one exactly when the division leaves a remainder.
pub proof fn lemma_divide_round_up(a: nat, b: nat)
    requires
        b > 0,
    ensures
        spec_divide_round_up(a, b) == (if a % b == 0 {
            a / b
        } else {
            a / b + 1
        }),
        a <= spec_divide_round_up(a, b) * b < a + b,
{
    let a = a as int;
    let b = b as int;
    assert((a + b - 1) / b == if a % b == 0 {
        a / b
    } else {
        a / b + 1
    } && a <= ((a + b - 1) / b) * b < a + b) by (nonlinear_arith)
        requires
            a >= 0,
            b > 0,
    ;
}

/// Bit-counting arithmetic on a fixed-width unsigned integer type.
pub trait ArithUtil: Copy + Sized {
    /// The number of bits in the type.
    const BITS: Self;

    /// The minimum value of the type.
    const MIN: Self;

    /// The maximum value of the type.
    const MAX: Self;

    /// The mathematical value of `self`.
    spec fn as_nat(self) -> nat;

    /// The constants bound the values of the type: every value lies
    /// between `MIN`, which is zero, and `MAX`, which is `2^BITS - 1`.
    proof fn lemma_range(self)
        ensures
            Self::MIN.as_nat() == 0,
            Self::MAX.as_nat() + 1 == pow2(Self::BITS.as_nat()),
            self.as_nat() <= Self::MAX.as_nat(),
    ;

    /// Calculates `ceil(log2(self))`: the least `k` with `2^k >= self`.
    fn ceil_log2(self) -> (k: Self)
        requires
            self.as_nat() > 0,
        ensures
            k.as_nat() == spec_ceil_log2(self.as_nat()),
    ;

    /// Divides by `divisor`, rounding up instead of down.
    fn divide_round_up(self, divisor: Self) -> (q: Self)
        requires
            divisor.as_nat() > 0,
        ensures
            q.as_nat() == spec_divide_round_up(self.as_nat(), divisor.as_nat()),
    ;
}

impl ArithUtil for u32 {
    const BITS: u32 = 32;

    const MIN: u32 = 0;

    const MAX: u32 = u32::MAX;

    open spec fn as_nat(self) -> nat {
        self as nat
    }

    proof fn lemma_range(self) {
        lemma2_to64();
    }

    #[inline]
    fn ceil_log2(self) -> (k: u32) {
        let y: u32 = self - 1;
        proof {
            lemma_u32_bit_length(y);
            lemma_ceil_log2_unique(self as nat, (32 - u32_leading_zeros(y)) as nat);
        }
        32 - y.leading_zeros()
    }

    #[inline(always)]
    fn divide_round_up(self, divisor: u32) -> (q: u32) {
        proof {
            lemma_divide_round_up(self as nat, divisor as nat);
        }
        if self % divisor == 0 {
            self / divisor
        } else {
            self / divisor + 1
        }
    }
}

impl ArithUtil for u64 {
    const BITS: u64 = 64;

    const MIN: u64 = 0;

    const MAX: u64 = u64::MAX;

    open spec fn as_nat(self) -> nat {
        self as nat
    }

    proof fn lemma_range(self) {
        lemma2_to64();
    }

    #[inline]
    fn ceil_log2(self) -> (k: u64) {
        let y: u64 = self - 1;
        proof {
            lemma_u64_bit_length(y);
            lemma_ceil_log2_unique(self as nat, (64 - u64_leading_zeros(y)) as nat);
        }
        64 - y.leading_zeros() as u64
    }

    #[inline(always)]
    fn divide_round_up(self, divisor: u64) -> (q: u64) {
        proof {
            lemma_divide_round_up(self as nat, divisor as nat);
        }
        if self % divisor == 0 {
            self / divisor
        } else {
            self / divisor + 1
        }
    }
}

impl ArithUtil for usize {
    const BITS: usize = USIZE_BITS;

    const MIN: usize = 0;

    const MAX: usize = usize::MAX;

    open spec fn as_nat(self) -> nat {
        self as nat
    }

    proof fn lemma_range(self) {
        lemma2_to64();
    }

    #[inline]
    fn ceil_log2(self) -> (k: usize) {
        let y: u64 = (self - 1) as u64;
        proof {
            lemma_u64_bit_length(y);
            lemma_ceil_log2_unique(self as nat, (64 - u64_leading_zeros(y)) as nat);
        }
        (64 - y.leading_zeros()) as usize
    }

    #[inline(always)]
    fn divide_round_up(self, divisor: usize) -> (q: usize) {
        proof {
            lemma_divide_round_up(self as nat, divisor as nat);
            assert(self as int % divisor as int != 0 ==> self as int / divisor as int + 1 <= self)
                by (nonlinear_arith)
                requires
                    divisor > 0,
            ;
        }
        if self % divisor == 0 {
            self / divisor
        } else {
            self / divisor + 1
        }
    }
}

} // verus!
