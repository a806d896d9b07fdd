//! IEEE 754 numbers as bit patterns.
//!
//! Element values and distances are held as the bits of their binary16, binary32 or binary64
//! encoding. A finite binary32 number is an integer multiple of the smallest positive one,
//! 2^-149; [`value`] gives that integer, so sums and comparisons of distances are stated over `int`.

use crate::rounding;
use vstd::arithmetic::mul::{lemma_mul_inequality, lemma_mul_is_commutative};
use vstd::arithmetic::power2::{
    lemma2_to64, lemma_pow2_pos, lemma_pow2_strictly_increases, lemma_pow2_unfold, pow2,
};
use vstd::prelude::*;

verus! {

/// The binary32 sign bit.
pub const SIGN_BIT: u32 = 0x8000_0000;

/// The binary32 exponent field's lowest bit, which is also the implicit leading significand bit.
pub const LEADING_BIT: u32 = 0x0080_0000;

/// The binary32 encoding of positive infinity.
pub const INFINITY: u32 = 0x7f80_0000;

/// The binary32 encoding of one.
pub const ONE: u32 = 0x3f80_0000;

/// The number of significand bits of binary32.
pub const SINGLE_BITS: u32 = 24;

/// The number of significand bits of binary64.
pub const DOUBLE_BITS: u32 = 53;

/// The binary32 exponent field.
pub open spec fn exponent_field(number: u32) -> int {
    (number / LEADING_BIT) as int % 256
}

/// The binary32 trailing significand field.
pub open spec fn significand_field(number: u32) -> int {
    number as int % LEADING_BIT as int
}

/// Whether a binary16 encoding is neither infinite nor a NaN.
pub open spec fn is_finite_half(number: u16) -> bool {
    (number / 1024) % 32 != 31
}

/// Whether a binary32 encoding is neither infinite nor a NaN.
pub open spec fn is_finite(number: u32) -> bool {
    exponent_field(number) != 255
}

/// Whether a binary64 encoding is neither infinite nor a NaN.
pub open spec fn is_finite_double(number: u64) -> bool {
    (number / 0x10_0000_0000_0000) % 2048 != 2047
}

/// Whether a binary32 encoding is a zero of either sign.
pub open spec fn is_zero(number: u32) -> bool {
    number == 0 || number == SIGN_BIT
}

/// Whether a binary64 encoding is a zero of either sign.
pub open spec fn is_zero_double(number: u64) -> bool {
    number == 0 || number == 0x8000_0000_0000_0000
}

/// Whether a binary32 encoding is a NaN.
pub open spec fn is_nan(number: u32) -> bool {
    exponent_field(number) == 255 && significand_field(number) != 0
}

/// The absolute value of a finite binary32 number, in units of 2^-149.
pub open spec fn single_magnitude(number: u32) -> nat {
    if exponent_field(number) == 0 {
        significand_field(number) as nat
    } else {
        (LEADING_BIT as nat + significand_field(number) as nat) * pow2(
            (exponent_field(number) - 1) as nat,
        )
    }
}

/// A finite binary32 number, in units of 2^-149. Both zeros are 0.
pub open spec fn value(number: u32) -> int {
    if number >= SIGN_BIT {
        -(single_magnitude(number) as int)
    } else {
        single_magnitude(number) as int
    }
}

/// The position of a binary32 encoding in the IEEE 754 total order: negative NaNs, negative
/// numbers up to -0, then +0 and the positive numbers, then positive NaNs.
pub open spec fn total_position(number: u32) -> int {
    if number >= SIGN_BIT {
        SIGN_BIT - number - 1
    } else {
        number as int
    }
}

/// The binary32 magnitude bits of an integer of at most 24 significant bits, in units of 2^-149.
pub open spec fn encode_magnitude(x: nat) -> nat
    decreases x,
{
    if x < 2 * LEADING_BIT {
        x
    } else {
        LEADING_BIT as nat + encode_magnitude(x / 2)
    }
}

/// The binary32 encoding of the number nearest to `x` units of 2^-149, ties to even; infinite from
/// 2^128 on. Zero is positive.
pub open spec fn nearest_single(x: int) -> u32 {
    let rounded = rounding::round_nat(rounding::magnitude(x), SINGLE_BITS as nat);
    let bits = if rounded >= pow2(277) {
        INFINITY as nat
    } else {
        encode_magnitude(rounded)
    };
    if x < 0 {
        (SIGN_BIT + bits) as u32
    } else {
        bits as u32
    }
}

/// Whether a binary16 encoding is neither infinite nor a NaN.
pub fn half_is_finite(number: u16) -> (finite: bool)
    ensures
        finite == is_finite_half(number),
{
    (number / 1024) % 32 != 31
}

/// Whether a binary32 encoding is neither infinite nor a NaN.
pub fn single_is_finite(number: u32) -> (finite: bool)
    ensures
        finite == is_finite(number),
{
    (number / LEADING_BIT) % 256 != 255
}

/// Whether a binary64 encoding is neither infinite nor a NaN.
pub fn double_is_finite(number: u64) -> (finite: bool)
    ensures
        finite == is_finite_double(number),
{
    (number / 0x10_0000_0000_0000) % 2048 != 2047
}

/// Whether a binary32 encoding is a NaN.
pub fn single_is_nan(number: u32) -> (nan: bool)
    ensures
        nan == is_nan(number),
{
    (number / LEADING_BIT) % 256 == 255 && number % LEADING_BIT != 0
}

/// Whether `left` comes strictly before `right` in the IEEE 754 total order.
pub fn precedes(left: u32, right: u32) -> (before: bool)
    ensures
        before == (total_position(left) < total_position(right)),
{
    if left >= SIGN_BIT {
        right < SIGN_BIT || left > right
    } else {
        right < SIGN_BIT && left < right
    }
}

/// Whether the finite number `left` is less than the finite number `right`.
pub fn is_less(left: u32, right: u32) -> (less: bool)
    requires
        is_finite(left),
        is_finite(right),
    ensures
        less == (value(left) < value(right)),
{
    let left_bits: u32 = if left >= SIGN_BIT {
        left - SIGN_BIT
    } else {
        left
    };
    let right_bits: u32 = if right >= SIGN_BIT {
        right - SIGN_BIT
    } else {
        right
    };
    proof {
        lemma_sign_split(left, left_bits);
        lemma_sign_split(right, right_bits);
        lemma_magnitude_order(left_bits, right_bits);
        lemma_magnitude_order(right_bits, left_bits);
        lemma_magnitude_order(0, left_bits);
        lemma_magnitude_order(0, right_bits);
    }
    if left >= SIGN_BIT {
        if right >= SIGN_BIT {
            right_bits < left_bits
        } else {
            left_bits != 0 || right_bits != 0
        }
    } else if right >= SIGN_BIT {
        false
    } else {
        left_bits < right_bits
    }
}

/// The significand and exponent of the finite number `number`, without its sign.
pub fn decode(number: u32) -> (parts: (u64, u32))
    requires
        is_finite(number),
    ensures
        single_magnitude(number) == parts.0 * pow2(parts.1 as nat),
        parts.0 < 2 * LEADING_BIT,
        parts.1 <= 253,
        parts.1 > 0 ==> parts.0 >= LEADING_BIT,
{
    let exponent: u32 = (number / LEADING_BIT) % 256;
    let significand: u32 = number % LEADING_BIT;
    proof {
        lemma2_to64();
        assert(significand * pow2(0) == significand);
    }
    if exponent == 0 {
        (significand as u64, 0)
    } else {
        ((LEADING_BIT + significand) as u64, exponent - 1)
    }
}

/// Dropping the sign bit keeps the other two fields.
proof fn lemma_sign_split(number: u32, bits: u32)
    requires
        bits == if number >= SIGN_BIT {
            (number - SIGN_BIT) as u32
        } else {
            number
        },
    ensures
        exponent_field(bits) == exponent_field(number),
        significand_field(bits) == significand_field(number),
        single_magnitude(bits) == single_magnitude(number),
        is_finite(bits) == is_finite(number),
{
}

/// Finite magnitudes are ordered as their encodings without the sign bit.
pub proof fn lemma_magnitude_order(left: u32, right: u32)
    requires
        left < SIGN_BIT,
        right < SIGN_BIT,
        is_finite(left),
        is_finite(right),
    ensures
        left < right ==> single_magnitude(left) < single_magnitude(right),
        left == right ==> single_magnitude(left) == single_magnitude(right),
{
    if left < right {
        let (el, er) = (exponent_field(left), exponent_field(right));
        let (sl, sr) = (significand_field(left), significand_field(right));
        assert(left == el * LEADING_BIT + sl);
        assert(right == er * LEADING_BIT + sr);
        assert(el <= er);
        lemma2_to64();
        if el == er {
            if el > 0 {
                lemma_pow2_pos((el - 1) as nat);
                vstd::arithmetic::mul::lemma_mul_strict_inequality(
                    LEADING_BIT + sl,
                    LEADING_BIT + sr,
                    pow2((el - 1) as nat) as int,
                );
            }
        } else {
            let unit = pow2((er - 1) as nat);
            lemma_pow2_pos((er - 1) as nat);
            lemma_mul_inequality(LEADING_BIT as int, LEADING_BIT + sr, unit as int);
            if el == 0 {
                lemma_mul_inequality(1, unit as int, LEADING_BIT as int);
                lemma_mul_is_commutative(unit as int, LEADING_BIT as int);
            } else {
                let small = pow2((el - 1) as nat);
                lemma_pow2_pos((el - 1) as nat);
                lemma_pow2_unfold(el as nat);
                if el < er - 1 {
                    lemma_pow2_strictly_increases(el as nat, (er - 1) as nat);
                }
                vstd::arithmetic::mul::lemma_mul_strict_inequality(
                    LEADING_BIT + sl,
                    2 * LEADING_BIT as int,
                    small as int,
                );
                assert(2 * LEADING_BIT as int * small == LEADING_BIT * (2 * small));
                lemma_mul_inequality(2 * small as int, unit as int, LEADING_BIT as int);
                lemma_mul_is_commutative(unit as int, LEADING_BIT as int);
                lemma_mul_is_commutative(2 * small as int, LEADING_BIT as int);
            }
        }
    }
}

/// The encoding of a normalized significand and exponent.
pub proof fn lemma_encode(significand: nat, exponent: nat)
    requires
        significand < 2 * LEADING_BIT,
        exponent > 0 ==> significand >= LEADING_BIT,
    ensures
        encode_magnitude(significand * pow2(exponent)) == exponent * LEADING_BIT + significand,
        significand * pow2(exponent) >= pow2(277) <==> exponent >= 254,
    decreases exponent,
{
    lemma2_to64();
    let x = significand * pow2(exponent);
    if exponent == 0 {
        assert(significand * pow2(0) == significand);
    } else {
        let less = (exponent - 1) as nat;
        lemma_encode(significand, less);
        lemma_pow2_unfold(exponent);
        lemma_pow2_pos(less);
        assert(x == 2 * (significand * pow2(less))) by (nonlinear_arith)
            requires
                x == significand * pow2(exponent),
                pow2(exponent) == 2 * pow2(less),
        ;
        assert(significand * pow2(less) >= LEADING_BIT) by (nonlinear_arith)
            requires
                significand >= LEADING_BIT,
                pow2(less) >= 1,
        ;
    }
    lemma_limit(significand, exponent);
}

/// Normalized numbers reach 2^128 from exponent 254 on.
proof fn lemma_limit(significand: nat, exponent: nat)
    requires
        significand < 2 * LEADING_BIT,
        exponent > 0 ==> significand >= LEADING_BIT,
    ensures
        significand * pow2(exponent) >= pow2(277) <==> exponent >= 254,
{
    lemma2_to64();
    lemma_pow2_pos(exponent);
    vstd::arithmetic::power2::lemma_pow2_adds(24, exponent);
    vstd::arithmetic::power2::lemma_pow2_adds(23, exponent);
    if exponent >= 254 {
        if exponent > 254 {
            lemma_pow2_strictly_increases(277, 23 + exponent);
        }
        lemma_mul_inequality(LEADING_BIT as int, significand as int, pow2(exponent) as int);
    } else {
        if exponent < 253 {
            lemma_pow2_strictly_increases(24 + exponent, 277);
        }
        vstd::arithmetic::mul::lemma_mul_strict_inequality(
            significand as int,
            2 * LEADING_BIT as int,
            pow2(exponent) as int,
        );
    }
}

/// A number of at most 24 significant bits has a normalized significand and exponent.
pub proof fn lemma_normal_form(significand: nat, exponent: nat) -> (parts: (nat, nat))
    requires
        significand <= 2 * LEADING_BIT,
    ensures
        parts.0 * pow2(parts.1) == significand * pow2(exponent),
        parts.0 < 2 * LEADING_BIT,
        parts.1 > 0 ==> parts.0 >= LEADING_BIT,
    decreases exponent,
{
    lemma_pow2_unfold(exponent + 1);
    if significand == 2 * LEADING_BIT {
        let half = LEADING_BIT as nat;
        assert(half * (2 * pow2(exponent)) == (2 * half) * pow2(exponent)) by (nonlinear_arith);
        (half, exponent + 1)
    } else if exponent == 0 || significand >= LEADING_BIT {
        (significand, exponent)
    } else {
        let less = (exponent - 1) as nat;
        lemma_pow2_unfold(exponent);
        assert((2 * significand) * pow2(less) == significand * (2 * pow2(less))) by (nonlinear_arith);
        lemma_normal_form(2 * significand, less)
    }
}

/// What the nearest binary32 number is: the rounded value, or infinite.
pub proof fn lemma_nearest_single(x: int)
    ensures
        is_finite(nearest_single(x)) <==> rounding::round_nat(
            rounding::magnitude(x),
            SINGLE_BITS as nat,
        ) < pow2(277),
        is_finite(nearest_single(x)) ==> value(nearest_single(x)) == rounding::round_int(
            x,
            SINGLE_BITS as nat,
        ),
        !is_nan(nearest_single(x)),
{
    lemma2_to64();
    let size = rounding::magnitude(x);
    let rounded = rounding::round_nat(size, 24);
    let shift = rounding::excess(size, 24);
    let unit = pow2(shift);
    rounding::lemma_excess(size, 24);
    lemma_pow2_pos(shift);
    vstd::arithmetic::power2::lemma_pow2_adds(24, shift);
    let quotient = size / unit;
    vstd::arithmetic::div_mod::lemma_fundamental_div_mod(size as int, unit as int);
    assert(quotient < pow2(24)) by (nonlinear_arith)
        requires
            size == unit * quotient + size % unit,
            size % unit >= 0,
            unit > 0,
            size < pow2(24) * unit,
    ;
    let (significand, exponent) = if rounded == quotient * unit {
        lemma_normal_form(quotient, shift)
    } else {
        lemma_normal_form(quotient + 1, shift)
    };
    lemma_encode(significand, exponent);
    if exponent < 254 {
        let bits = (exponent * LEADING_BIT + significand) as u32;
        assert(exponent * LEADING_BIT + significand < INFINITY);
        assert(bits < SIGN_BIT);
        if significand < LEADING_BIT {
            assert(exponent == 0);
            assert(exponent_field(bits) == 0);
            assert(significand_field(bits) == significand);
            assert(significand * pow2(0) == significand);
        } else {
            assert(exponent_field(bits) == exponent + 1);
            assert(significand_field(bits) == significand - LEADING_BIT);
        }
        assert(single_magnitude(bits) == rounded);
        lemma_sign_split((SIGN_BIT + bits) as u32, bits);
    } else {
        lemma_sign_split((SIGN_BIT + INFINITY) as u32, INFINITY);
    }
}

/// A finite number has at most 24 significant bits.
pub proof fn lemma_single_is_exact(number: u32)
    requires
        is_finite(number),
    ensures
        rounding::round_int(value(number), SINGLE_BITS as nat) == value(number),
        rounding::round_int(value(number), DOUBLE_BITS as nat) == value(number),
        single_magnitude(number) < pow2(277),
        rounding::magnitude(value(number)) == single_magnitude(number),
{
    lemma2_to64();
    vstd::arithmetic::power2::lemma2_to64_rest();
    let exponent = exponent_field(number);
    let significand = significand_field(number);
    let (s, e) = if exponent == 0 {
        (significand as nat, 0nat)
    } else {
        ((LEADING_BIT + significand) as nat, (exponent - 1) as nat)
    };
    assert(s * pow2(0) == s);
    assert(single_magnitude(number) == s * pow2(e));
    rounding::lemma_round_exact(s, 24, e);
    rounding::lemma_round_exact(s, 53, e);
    lemma_limit(s, e);
}

} // verus!
