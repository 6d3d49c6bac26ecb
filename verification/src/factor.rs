//! The aggregation threshold of a file, kept as the bits of an IEEE-754 single and
//! compared exactly, in integers.

use vstd::arithmetic::power2::{lemma2_to64, lemma2_to64_rest, lemma_pow2_strictly_increases};
use vstd::arithmetic::power2::{lemma_pow2_unfold, pow2};
use vstd::prelude::*;

verus! {

/// The bits of the factor one: every slot must be known.
pub const FACTOR_ONE: u32 = 0x3F80_0000;

/// The bits of the factor one half: the factor of a newly created file.
pub const FACTOR_HALF: u32 = 0x3F00_0000;

/// A factor between zero and one, both included. The bit patterns of the
/// non-negative singles are ordered as the numbers they denote.
pub open spec fn valid_factor(bits: u32) -> bool {
    bits <= FACTOR_ONE
}

/// The numerator of the fraction that `bits` denotes: the significand, with its
/// hidden bit unless the number is subnormal.
pub open spec fn factor_mantissa(bits: u32) -> nat {
    if bits / 0x80_0000 == 0 {
        (bits % 0x80_0000) as nat
    } else {
        (0x80_0000 + bits % 0x80_0000) as nat
    }
}

/// The binary logarithm of the denominator of the fraction that `bits` denotes:
/// a valid factor is `factor_mantissa(bits) / 2^factor_shift(bits)`.
pub open spec fn factor_shift(bits: u32) -> nat {
    if bits / 0x80_0000 == 0 {
        149
    } else {
        (150 - bits / 0x80_0000) as nat
    }
}

/// Whether `known` out of `total` is a fraction of at least the factor `bits`.
pub open spec fn meets_factor(known: nat, total: nat, bits: u32) -> bool {
    known * pow2(factor_shift(bits)) >= factor_mantissa(bits) * total
}

/// With every slot known the threshold is met, whatever the factor.
pub proof fn lemma_all_known_meets(total: nat, bits: u32)
    requires
        valid_factor(bits),
    ensures
        meets_factor(total, total, bits),
{
    let shift = factor_shift(bits);
    let mantissa = factor_mantissa(bits);
    lemma2_to64();
    assert(mantissa <= pow2(24)) by {
        assert(mantissa < 0x100_0000);
    }
    if shift > 24 {
        lemma_pow2_strictly_increases(24, shift);
    } else if shift == 23 {
        assert(bits / 0x80_0000 == 127);
        assert(mantissa == 0x80_0000);
    }
    assert(total * pow2(shift) >= mantissa * total) by (nonlinear_arith)
        requires
            mantissa <= pow2(shift),
    ;
}

/// With a factor above zero and no slot known the threshold is not met.
pub proof fn lemma_none_known_fails(total: nat, bits: u32)
    requires
        total > 0,
        bits > 0,
        valid_factor(bits),
    ensures
        !meets_factor(0, total, bits),
{
    let mantissa = factor_mantissa(bits);
    assert(mantissa > 0);
    assert(mantissa * total > 0) by (nonlinear_arith)
        requires
            mantissa > 0,
            total > 0,
    ;
    assert(0 * pow2(factor_shift(bits)) == 0) by (nonlinear_arith);
}

/// Whether `known` out of `total` slots is a fraction of at least the factor `bits`.
pub fn reaches_factor(known: u32, total: u32, bits: u32) -> (met: bool)
    requires
        valid_factor(bits),
    ensures
        met == meets_factor(known as nat, total as nat, bits),
{
    let exponent: u32 = bits / 0x80_0000;
    let fraction: u32 = bits % 0x80_0000;
    let mantissa: u64 = if exponent == 0 {
        fraction as u64
    } else {
        0x80_0000 + fraction as u64
    };
    let shift: u32 = if exponent == 0 {
        149
    } else {
        150 - exponent
    };
    assert(mantissa * total <= 0xff_ffff * 0xffff_ffff) by (nonlinear_arith)
        requires
            mantissa <= 0xff_ffff,
            total <= 0xffff_ffff,
    ;
    let needed: u64 = mantissa * (total as u64);
    if known == 0 {
        assert(0 * pow2(shift as nat) == 0) by (nonlinear_arith);
        return needed == 0;
    }
    if shift >= 56 {
        proof {
            lemma2_to64_rest();
            if shift > 56 {
                lemma_pow2_strictly_increases(56, shift as nat);
            }
            assert(known * pow2(shift as nat) >= pow2(shift as nat)) by (nonlinear_arith)
                requires
                    known >= 1,
            ;
        }
        return true;
    }
    let mut scale: u128 = 1;
    let mut i: u32 = 0;
    proof {
        lemma2_to64();
    }
    while i < shift
        invariant
            0 <= i <= shift < 56,
            scale == pow2(i as nat),
            scale <= 0x80_0000_0000_0000,
        decreases shift - i,
    {
        proof {
            lemma_pow2_unfold((i + 1) as nat);
            lemma2_to64_rest();
            if i + 1 < 55 {
                lemma_pow2_strictly_increases((i + 1) as nat, 55);
            }
        }
        scale = scale * 2;
        i = i + 1;
    }
    assert(known * scale <= 0xffff_ffff * 0x80_0000_0000_0000) by (nonlinear_arith)
        requires
            known <= 0xffff_ffff,
            scale <= 0x80_0000_0000_0000,
    ;
    (known as u128) * scale >= needed as u128
}

} // verus!
