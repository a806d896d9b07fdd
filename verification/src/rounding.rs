//! Rounding of integers to a fixed number of significant bits.
//!
//! A binary floating-point format with `bits` significand bits holds, between its smallest unit and
//! its largest value, exactly the integer multiples of that unit with at most `bits` significant
//! bits. Rounding to nearest with ties to even is then an operation on integers alone.

use vstd::arithmetic::div_mod::lemma_fundamental_div_mod_converse;
use vstd::arithmetic::mul::{
    lemma_mul_inequality, lemma_mul_is_commutative, lemma_mul_is_distributive_add,
};
use vstd::arithmetic::power2::{
    lemma_pow2_adds, lemma_pow2_pos, lemma_pow2_strictly_increases, lemma_pow2_unfold, pow2,
};
use vstd::prelude::*;

verus! {

/// The number of low bits of `x` that do not fit in `bits` significant bits.
pub open spec fn excess(x: nat, bits: nat) -> nat
    decreases x,
{
    if x < pow2(bits) || x == 0 {
        0
    } else {
        1 + excess(x / 2, bits)
    }
}

/// `x` rounded to the nearest integer with at most `bits` significant bits, ties to the even one.
pub open spec fn round_nat(x: nat, bits: nat) -> nat {
    let unit = pow2(excess(x, bits));
    let quotient = x / unit;
    let rest = x % unit;
    if 2 * rest > unit || (2 * rest == unit && quotient % 2 == 1) {
        (quotient + 1) * unit
    } else {
        quotient * unit
    }
}

/// The absolute value of `x`.
pub open spec fn magnitude(x: int) -> nat {
    if x < 0 {
        (-x) as nat
    } else {
        x as nat
    }
}

/// `x` rounded to the nearest integer with at most `bits` significant bits, ties to the even one;
/// the sign is kept.
pub open spec fn round_int(x: int, bits: nat) -> int {
    if x < 0 {
        -(round_nat(magnitude(x), bits) as int)
    } else {
        round_nat(magnitude(x), bits) as int
    }
}

/// The excess is the least count of low bits whose removal leaves at most `bits` bits.
pub proof fn lemma_excess(x: nat, bits: nat)
    ensures
        x < pow2(bits + excess(x, bits)),
        excess(x, bits) > 0 ==> x >= pow2((bits + excess(x, bits) - 1) as nat),
    decreases x,
{
    lemma_pow2_pos(bits);
    if x < pow2(bits) || x == 0 {
    } else {
        lemma_excess(x / 2, bits);
        let k = excess(x / 2, bits);
        lemma_pow2_unfold(bits + k + 1);
        assert(x < 2 * pow2(bits + k));
        if k > 0 {
            lemma_pow2_unfold(bits + k);
        }
    }
}

/// Between two successive powers of two the excess is known.
pub proof fn lemma_excess_unique(x: nat, bits: nat, k: nat)
    requires
        x < pow2(bits + k),
        k > 0 ==> x >= pow2((bits + k - 1) as nat),
    ensures
        excess(x, bits) == k,
{
    lemma_excess(x, bits);
    let found = excess(x, bits);
    if found < k {
        if bits + found < bits + k - 1 {
            lemma_pow2_strictly_increases(bits + found, (bits + k - 1) as nat);
        }
    } else if k < found {
        if bits + k < bits + found - 1 {
            lemma_pow2_strictly_increases(bits + k, (bits + found - 1) as nat);
        }
    }
}

/// The value that `round_nat` gives to `quotient * pow2(k) + rest`, where `k` is the excess.
pub proof fn lemma_round_parts(x: nat, bits: nat, k: nat, quotient: nat, rest: nat)
    requires
        excess(x, bits) == k,
        x == quotient * pow2(k) + rest,
        rest < pow2(k),
    ensures
        round_nat(x, bits) == (if 2 * rest > pow2(k) || (2 * rest == pow2(k) && quotient % 2 == 1) {
            (quotient + 1) * pow2(k)
        } else {
            quotient * pow2(k)
        }),
{
    lemma_mul_is_commutative(quotient as int, pow2(k) as int);
    lemma_fundamental_div_mod_converse(x as int, pow2(k) as int, quotient as int, rest as int);
}

/// Doubling commutes with rounding.
pub proof fn lemma_round_double(x: nat, bits: nat)
    requires
        bits > 0,
    ensures
        round_nat(2 * x, bits) == 2 * round_nat(x, bits),
{
    let k = excess(x, bits);
    let unit = pow2(k);
    lemma_excess(x, bits);
    lemma_pow2_pos(k);
    lemma_pow2_unfold(k + 1);
    let quotient = x / unit;
    let rest = x % unit;
    vstd::arithmetic::div_mod::lemma_fundamental_div_mod(x as int, unit as int);
    lemma_mul_is_commutative(quotient as int, unit as int);
    lemma_round_parts(x, bits, k, quotient, rest);
    lemma_pow2_unfold(bits + k + 1);
    if x < pow2(bits) && 2 * x < pow2(bits) {
        assert(k == 0);
        lemma_excess_unique(2 * x, bits, 0);
        vstd::arithmetic::power2::lemma2_to64();
        lemma_round_parts(2 * x, bits, 0, 2 * x, 0);
        assert(unit == 1);
        assert(rest == 0 && quotient == x);
        assert((2 * x) * 1 == 2 * x);
        assert(x * 1 == x);
    } else {
        assert(2 * x < pow2(bits + k + 1));
        if k > 0 {
            lemma_pow2_unfold((bits + k) as nat);
        }
        assert(2 * x >= pow2(bits + k));
        lemma_excess_unique(2 * x, bits, k + 1);
        assert(2 * x == quotient * pow2(k + 1) + 2 * rest) by (nonlinear_arith)
            requires
                x == quotient * unit + rest,
                pow2(k + 1) == 2 * unit,
        ;
        lemma_round_parts(2 * x, bits, k + 1, quotient, 2 * rest);
        assert(quotient * (2 * unit) == 2 * (quotient * unit)) by (nonlinear_arith);
        assert((quotient + 1) * (2 * unit) == 2 * ((quotient + 1) * unit)) by (nonlinear_arith);
    }
}

/// Scaling by a power of two commutes with rounding.
pub proof fn lemma_round_scaled(x: nat, bits: nat, shift: nat)
    requires
        bits > 0,
    ensures
        round_nat(x * pow2(shift), bits) == round_nat(x, bits) * pow2(shift),
    decreases shift,
{
    vstd::arithmetic::power2::lemma2_to64();
    if shift == 0 {
        assert(x * 1 == x);
        assert(round_nat(x, bits) * 1 == round_nat(x, bits));
    } else {
        let less = (shift - 1) as nat;
        lemma_round_scaled(x, bits, less);
        lemma_pow2_unfold(shift);
        lemma_round_double(x * pow2(less), bits);
        assert(x * pow2(shift) == 2 * (x * pow2(less))) by (nonlinear_arith)
            requires
                pow2(shift) == 2 * pow2(less),
        ;
        let rounded = round_nat(x, bits);
        assert(rounded * pow2(shift) == 2 * (rounded * pow2(less))) by (nonlinear_arith)
            requires
                pow2(shift) == 2 * pow2(less),
        ;
    }
}

/// An integer with at most `bits` significant bits is its own rounding.
pub proof fn lemma_round_exact(significand: nat, bits: nat, shift: nat)
    requires
        bits > 0,
        significand <= pow2(bits),
    ensures
        round_nat(significand * pow2(shift), bits) == significand * pow2(shift),
{
    vstd::arithmetic::power2::lemma2_to64();
    lemma_round_scaled(significand, bits, shift);
    if significand < pow2(bits) {
        lemma_excess_unique(significand, bits, 0);
        lemma_round_parts(significand, bits, 0, significand, 0);
        assert(significand * 1 == significand);
    } else {
        lemma_pow2_pos(bits);
        lemma_pow2_unfold(bits);
        lemma_pow2_unfold(bits + 1);
        lemma_excess_unique(significand, bits, 1);
        let half = pow2((bits - 1) as nat);
        lemma_round_parts(significand, bits, 1, half, 0);
    }
}

/// Rounding keeps the order.
pub proof fn lemma_round_monotone(x: nat, y: nat, bits: nat)
    requires
        bits > 0,
        x <= y,
    ensures
        round_nat(x, bits) <= round_nat(y, bits),
{
    let kx = excess(x, bits);
    let ky = excess(y, bits);
    let (ux, uy) = (pow2(kx), pow2(ky));
    lemma_excess(x, bits);
    lemma_excess(y, bits);
    lemma_pow2_pos(kx);
    lemma_pow2_pos(ky);
    vstd::arithmetic::div_mod::lemma_fundamental_div_mod(x as int, ux as int);
    vstd::arithmetic::div_mod::lemma_fundamental_div_mod(y as int, uy as int);
    let (qx, rx) = (x / ux, x % ux);
    let (qy, ry) = (y / uy, y % uy);
    if kx == ky {
        vstd::arithmetic::div_mod::lemma_div_is_ordered(x as int, y as int, ux as int);
        if qx < qy {
            lemma_mul_inequality(qx as int + 1, qy as int, ux as int);
            lemma_mul_inequality(qx as int, qy as int, ux as int);
            assert((qy + 1) * ux >= qy * ux) by (nonlinear_arith);
        } else {
            assert(rx <= ry);
            assert((qy + 1) * ux >= qy * ux) by (nonlinear_arith);
        }
    } else {
        if ky < kx {
            if bits + ky < bits + kx - 1 {
                lemma_pow2_strictly_increases(bits + ky, (bits + kx - 1) as nat);
            }
            assert(false);
        }
        lemma_pow2_adds(bits, kx);
        assert(qx < pow2(bits)) by (nonlinear_arith)
            requires
                x == ux * qx + rx,
                rx >= 0,
                ux > 0,
                x < pow2(bits) * ux,
        ;
        lemma_mul_inequality(qx as int + 1, pow2(bits) as int, ux as int);
        assert((qx + 1) * ux >= qx * ux) by (nonlinear_arith);
        assert(round_nat(x, bits) <= pow2(bits + kx));
        if bits + kx < bits + ky - 1 {
            lemma_pow2_strictly_increases(bits + kx, (bits + ky - 1) as nat);
        }
        assert(pow2(bits + kx) <= pow2((bits + ky - 1) as nat));
        let half = pow2((bits - 1) as nat);
        lemma_pow2_adds((bits - 1) as nat, ky);
        assert(qy >= half) by (nonlinear_arith)
            requires
                y == uy * qy + ry,
                ry < uy,
                uy > 0,
                y >= half * uy,
        ;
        lemma_mul_inequality(half as int, qy as int, uy as int);
        assert((qy + 1) * uy >= qy * uy) by (nonlinear_arith);
    }
}

/// A change of less than a quarter of the last place of a full significand rounds away.
pub proof fn lemma_round_absorbs(significand: nat, bits: nat, shift: nat, change: nat)
    requires
        bits > 0,
        pow2((bits - 1) as nat) <= significand < pow2(bits),
        4 * change < pow2(shift),
    ensures
        round_nat(significand * pow2(shift) + change, bits) == significand * pow2(shift),
        round_nat((significand * pow2(shift) - change) as nat, bits) == significand * pow2(shift),
{
    let unit = pow2(shift);
    let whole = significand * unit;
    lemma_pow2_pos((bits - 1) as nat);
    lemma_pow2_adds(bits, shift);
    lemma_pow2_adds((bits - 1) as nat, shift);
    lemma_mul_inequality(significand as int + 1, pow2(bits) as int, unit as int);
    lemma_mul_inequality(pow2((bits - 1) as nat) as int, significand as int, unit as int);
    lemma_mul_is_distributive_add(unit as int, significand as int, 1);
    lemma_mul_is_commutative(unit as int, significand as int);
    lemma_mul_is_commutative(unit as int, significand as int + 1);
    assert((significand + 1) * unit == whole + unit);
    assert(bits + shift - 1 == (bits - 1) + shift);
    lemma_excess_unique(whole + change, bits, shift);
    lemma_round_parts(whole + change, bits, shift, significand, change);
    if change == 0 {
    } else if significand > pow2((bits - 1) as nat) {
        let less = (significand - 1) as nat;
        assert(whole == less * unit + unit) by (nonlinear_arith)
            requires
                whole == significand * unit,
                less == significand - 1,
        ;
        lemma_mul_inequality(pow2((bits - 1) as nat) as int, less as int, unit as int);
        lemma_excess_unique((whole - change) as nat, bits, shift);
        lemma_round_parts((whole - change) as nat, bits, shift, less, (unit - change) as nat);
    } else {
        vstd::arithmetic::power2::lemma2_to64();
        assert(shift > 0);
        lemma_pow2_unfold(shift);
        let half = pow2((shift - 1) as nat);
        lemma_pow2_unfold(bits);
        assert(whole == pow2(bits) * half) by (nonlinear_arith)
            requires
                whole == significand * unit,
                unit == 2 * half,
                pow2(bits) == 2 * significand,
        ;
        let less = (pow2(bits) - 1) as nat;
        assert(whole == less * half + half) by (nonlinear_arith)
            requires
                whole == pow2(bits) * half,
                less == pow2(bits) - 1,
        ;
        lemma_pow2_adds(bits, (shift - 1) as nat);
        assert(whole == pow2((bits + (shift - 1)) as nat));
        if shift > 1 {
            lemma_pow2_unfold((bits + (shift - 1)) as nat);
            lemma_pow2_unfold((shift - 1) as nat);
            assert(whole - change >= pow2((bits + (shift - 1) - 1) as nat)) by {
                let low = pow2((bits + (shift - 1) - 1) as nat);
                assert(whole == 2 * low);
                assert(half <= low) by {
                    lemma_pow2_adds((shift - 1) as nat, (bits - 1) as nat);
                    lemma_mul_inequality(1, pow2((bits - 1) as nat) as int, half as int);
                    lemma_mul_is_commutative(half as int, pow2((bits - 1) as nat) as int);
                }
            }
        }
        lemma_excess_unique((whole - change) as nat, bits, (shift - 1) as nat);
        lemma_round_parts((whole - change) as nat, bits, (shift - 1) as nat, less, (half - change) as nat);
    }
}

} // verus!
