//! What holds of numbers: which encodings are numbers, what they are worth, and how sums round.

use crate::accumulator;
use crate::float;
use crate::rounding;
use vstd::arithmetic::div_mod::lemma_fundamental_div_mod;
use vstd::arithmetic::mul::{lemma_mul_inequality, lemma_mul_is_commutative};
use vstd::arithmetic::power2::{
    lemma2_to64, lemma_pow2_adds, lemma_pow2_pos, lemma_pow2_unfold, pow2,
};
use vstd::prelude::*;

verus! {

/// The finite binary16 numbers are those below the infinity of their sign.
pub proof fn law_finite_half(number: u16)
    ensures
        float::is_finite_half(number) <==> number < 0x7c00 || 0x8000 <= number < 0xfc00,
{
}

/// The finite binary32 numbers are those below the infinity of their sign; the NaNs are those above.
pub proof fn law_finite_single(number: u32)
    ensures
        float::is_finite(number) <==> number < 0x7f80_0000 || 0x8000_0000 <= number < 0xff80_0000,
        float::is_nan(number) <==> 0x7f80_0000 < number < 0x8000_0000 || number > 0xff80_0000,
        float::is_zero(number) <==> number == 0 || number == 0x8000_0000,
{
}

/// The finite binary64 numbers are those below the infinity of their sign.
pub proof fn law_finite_double(number: u64)
    ensures
        float::is_finite_double(number) <==> number < 0x7ff0_0000_0000_0000
            || 0x8000_0000_0000_0000 <= number < 0xfff0_0000_0000_0000,
        float::is_zero_double(number) <==> number == 0 || number == 0x8000_0000_0000_0000,
{
}

/// The total order is strict on encodings: negative ones first, from the greatest encoding down,
/// then the others, from zero up.
pub proof fn law_total_order(left: u32, right: u32)
    ensures
        float::total_position(left) == float::total_position(right) <==> left == right,
        left < right < 0x8000_0000 ==> float::total_position(left) < float::total_position(right),
        0x8000_0000 <= right < left ==> float::total_position(left) < float::total_position(right),
        right < 0x8000_0000 <= left ==> float::total_position(left) < float::total_position(right),
{
}

/// A number is worth its significand at the scale of its exponent field, in units of 2^-149; the
/// sign bit negates it.
pub proof fn law_value_of_fields(exponent: nat, significand: nat)
    requires
        exponent < 255,
        significand < 0x80_0000,
    ensures
        ({
            let magnitude: int = if exponent == 0 {
                significand as int
            } else {
                ((0x80_0000 + significand) * pow2((exponent - 1) as nat)) as int
            };
            &&& float::value((exponent * 0x80_0000 + significand) as u32) == magnitude
            &&& float::value((0x8000_0000 + exponent * 0x80_0000 + significand) as u32)
                == -magnitude
            &&& float::single_magnitude((exponent * 0x80_0000 + significand) as u32) == magnitude
            &&& float::single_magnitude(
                (0x8000_0000 + exponent * 0x80_0000 + significand) as u32,
            ) == magnitude
        }),
{
    let plain = (exponent * 0x80_0000 + significand) as u32;
    let negative = (0x8000_0000 + exponent * 0x80_0000 + significand) as u32;
    assert(float::exponent_field(plain) == exponent);
    assert(float::significand_field(plain) == significand);
    assert(float::exponent_field(negative) == exponent);
    assert(float::significand_field(negative) == significand);
}

/// Numbers that come later in the total order are worth no less.
pub proof fn law_value_keeps_order(left: u32, right: u32)
    requires
        float::is_finite(left),
        float::is_finite(right),
        float::total_position(left) <= float::total_position(right),
    ensures
        float::value(left) <= float::value(right),
{
    let a = if left >= float::SIGN_BIT {
        (left - float::SIGN_BIT) as u32
    } else {
        left
    };
    let b = if right >= float::SIGN_BIT {
        (right - float::SIGN_BIT) as u32
    } else {
        right
    };
    assert(float::single_magnitude(a) == float::single_magnitude(left));
    assert(float::single_magnitude(b) == float::single_magnitude(right));
    assert(float::is_finite(a) && float::is_finite(b));
    float::lemma_magnitude_order(a, b);
    float::lemma_magnitude_order(b, a);
}

/// The absolute value.
pub open spec fn size(x: int) -> int {
    if x < 0 {
        -x
    } else {
        x
    }
}

/// Whether `x` is `significand`, which has at most `bits` bits, times a power of two.
pub open spec fn is_scaled(x: int, bits: nat, significand: int, scale: nat) -> bool {
    &&& size(significand) <= pow2(bits)
    &&& x == significand * pow2(scale)
}

/// Rounding gives an integer of at most `bits` significant bits, and none of those is nearer.
pub proof fn law_rounding_is_nearest(x: int, bits: nat, significand: int, shift: nat)
    requires
        bits > 0,
        size(significand) <= pow2(bits),
    ensures
        size(rounding::round_int(x, bits) - x) <= size(significand * pow2(shift) - x),
        exists|found: int, scale: nat| #[trigger]
            is_scaled(rounding::round_int(x, bits), bits, found, scale),
{
    let m = rounding::magnitude(x);
    let (q, r, k) = lemma_parts(m, bits);
    let rounded = rounding::round_nat(m, bits);
    let found: int = if rounded == q * pow2(k) {
        q as int
    } else {
        (q + 1) as int
    };
    assert(rounded == found * pow2(k));
    if x < 0 {
        assert((-found) * pow2(k) == -(found * pow2(k))) by (nonlinear_arith);
        assert(is_scaled(rounding::round_int(x, bits), bits, -found, k));
        assert((-significand) * pow2(shift) == -(significand * pow2(shift))) by (nonlinear_arith);
        lemma_nearest(m, bits, -significand, shift);
    } else {
        assert(is_scaled(rounding::round_int(x, bits), bits, found, k));
        lemma_nearest(m, bits, significand, shift);
    }
}

/// The quotient and rest of `x` at the scale to which it is rounded.
proof fn lemma_parts(x: nat, bits: nat) -> (parts: (nat, nat, nat))
    requires
        bits > 0,
    ensures
        ({
            let (q, r, k) = parts;
            &&& k == rounding::excess(x, bits)
            &&& x == q * pow2(k) + r
            &&& r < pow2(k)
            &&& q < pow2(bits)
            &&& k > 0 ==> x >= pow2((bits + k - 1) as nat)
            &&& k > 0 ==> pow2((bits - 1) as nat) <= q
            &&& rounding::round_nat(x, bits) == (if 2 * r > pow2(k) || (2 * r == pow2(k) && q % 2
                == 1) {
                (q + 1) * pow2(k)
            } else {
                q * pow2(k)
            })
        }),
{
    let k = rounding::excess(x, bits);
    let unit = pow2(k);
    rounding::lemma_excess(x, bits);
    lemma_pow2_pos(k);
    let (q, r) = (x / unit, x % unit);
    lemma_fundamental_div_mod(x as int, unit as int);
    lemma_mul_is_commutative(unit as int, q as int);
    rounding::lemma_round_parts(x, bits, k, q, r);
    lemma_pow2_adds(bits, k);
    assert(q < pow2(bits)) by (nonlinear_arith)
        requires
            x == q * unit + r,
            r >= 0,
            unit > 0,
            x < pow2(bits) * unit,
    ;
    if k > 0 {
        lemma_pow2_adds((bits - 1) as nat, k);
        let half = pow2((bits - 1) as nat);
        assert(half <= q) by (nonlinear_arith)
            requires
                x == q * unit + r,
                r < unit,
                unit > 0,
                x >= half * unit,
        ;
    }
    (q, r, k)
}

/// No integer of at most `bits` significant bits is nearer to `x` than its rounding.
proof fn lemma_nearest(x: nat, bits: nat, significand: int, shift: nat)
    requires
        bits > 0,
        size(significand) <= pow2(bits),
    ensures
        size(rounding::round_nat(x, bits) - x) <= size(significand * pow2(shift) - x),
{
    let (q, r, k) = lemma_parts(x, bits);
    let unit = pow2(k);
    let other = significand * pow2(shift);
    assert((q + 1) * unit == q * unit + unit) by (nonlinear_arith);
    lemma_pow2_pos(shift);
    lemma2_to64();
    if k == 0 {
        assert(q * 1 == q);
    } else if significand < 0 {
        assert(other <= 0) by (nonlinear_arith)
            requires
                other == significand * pow2(shift),
                significand < 0,
                pow2(shift) > 0,
        ;
        lemma_pow2_pos((bits - 1) as nat);
        assert(q * unit >= unit) by (nonlinear_arith)
            requires
                q >= 1,
                unit > 0,
        ;
    } else {
        lemma_outside(q, k, bits, significand as nat, shift);
    }
}

/// No integer of at most `bits` significant bits lies strictly between two neighbours.
proof fn lemma_outside(q: nat, k: nat, bits: nat, significand: nat, shift: nat)
    requires
        bits > 0,
        k > 0,
        pow2((bits - 1) as nat) <= q < pow2(bits),
        significand <= pow2(bits),
    ensures
        significand * pow2(shift) <= q * pow2(k) || significand * pow2(shift) >= (q + 1) * pow2(k),
{
    let other = significand * pow2(shift);
    lemma_pow2_pos(k);
    lemma_pow2_pos(shift);
    if shift >= k {
        let more = (shift - k) as nat;
        lemma_pow2_adds(k, more);
        let s = significand * pow2(more);
        assert(other == s * pow2(k)) by (nonlinear_arith)
            requires
                other == significand * pow2(shift),
                pow2(shift) == pow2(k) * pow2(more),
                s == significand * pow2(more),
        ;
        if s <= q {
            lemma_mul_inequality(s as int, q as int, pow2(k) as int);
        } else {
            lemma_mul_inequality(q as int + 1, s as int, pow2(k) as int);
        }
    } else {
        let less = (k - 1 - shift) as nat;
        lemma_pow2_adds(shift, less);
        lemma_pow2_unfold(k);
        lemma_pow2_unfold(bits);
        lemma_pow2_pos(less);
        let half = pow2((bits - 1) as nat);
        assert(other <= half * pow2(k)) by (nonlinear_arith)
            requires
                other == significand * pow2(shift),
                significand <= 2 * half,
                pow2(k) == 2 * (pow2(shift) * pow2(less)),
                pow2(less) >= 1,
                pow2(shift) >= 1,
        ;
        lemma_mul_inequality(half as int, q as int, pow2(k) as int);
    }
}

/// Of two integers of at most `bits` significant bits that are equally near, rounding gives the one
/// whose last place is even.
pub proof fn law_rounding_ties_to_even(x: int, bits: nat, places: nat)
    requires
        bits > 0,
        places > 0,
        pow2((bits + places - 1) as nat) <= size(x) < pow2(bits + places),
        2 * size(rounding::round_int(x, bits) - x) == pow2(places),
    ensures
        rounding::round_int(x, bits) % (2 * pow2(places) as int) == 0,
{
    let m = rounding::magnitude(x);
    rounding::lemma_excess_unique(m, bits, places);
    let (q, r, k) = lemma_parts(m, bits);
    let unit = pow2(k);
    assert((q + 1) * unit == q * unit + unit) by (nonlinear_arith);
    let rounded = rounding::round_nat(m, bits) as int;
    lemma_pow2_pos(k);
    assert(2 * r == unit);
    let even: int = if q % 2 == 1 {
        (q + 1) as int
    } else {
        q as int
    };
    assert(rounded == even * unit);
    let half = even / 2;
    assert(rounded == half * (2 * unit)) by (nonlinear_arith)
        requires
            rounded == even * unit,
            even == 2 * half,
    ;
    vstd::arithmetic::div_mod::lemma_mod_multiples_basic(half, 2 * unit as int);
    assert(-rounded == (-half) * (2 * unit)) by (nonlinear_arith)
        requires
            rounded == half * (2 * unit),
    ;
    vstd::arithmetic::div_mod::lemma_mod_multiples_basic(-half, 2 * unit as int);
}

/// A sum starts at zero, and each further term is added and the result rounded to 53 bits.
pub proof fn law_sum_rounds_each_step(terms: Seq<int>, term: int)
    ensures
        accumulator::rounded_sum(Seq::<int>::empty()) == 0,
        accumulator::rounded_sum(terms.push(term)) == rounding::round_int(
            accumulator::rounded_sum(terms) + term,
            53,
        ),
        accumulator::add_rounded(accumulator::rounded_sum(terms), term)
            == accumulator::rounded_sum(terms.push(term)),
{
    assert(terms.push(term).drop_last() =~= terms);
}

/// One addition is rounded to 53 bits.
pub proof fn law_addition_rounds(left: int, right: int)
    ensures
        accumulator::add_rounded(left, right) == rounding::round_int(left + right, 53),
{
}

/// The single-precision result is the sum rounded to 24 bits, with its sign; it is infinite from
/// half a last place above the greatest finite number on.
pub proof fn law_single_is_rounded(x: int)
    ensures
        x < 0 <==> float::nearest_single(x) >= 0x8000_0000,
        float::is_finite(float::nearest_single(x)) <==> size(x) < pow2(277) - pow2(252),
        float::is_finite(float::nearest_single(x)) ==> float::value(float::nearest_single(x))
            == rounding::round_int(x, 24),
        !float::is_finite(float::nearest_single(x)) ==> float::nearest_single(x) == 0x7f80_0000
            || float::nearest_single(x) == 0xff80_0000,
{
    lemma2_to64();
    float::lemma_nearest_single(x);
    let m = rounding::magnitude(x);
    let rounded = rounding::round_nat(m, 24);
    let limit = (pow2(277) - pow2(252)) as nat;
    lemma_pow2_adds(24, 252);
    lemma_pow2_adds(24, 253);
    lemma_pow2_adds(25, 252);
    lemma_pow2_unfold(253);
    lemma_pow2_pos(252);
    let unit = pow2(253);
    let top = 0xff_ffffnat;
    assert(limit == top * unit + pow2(252)) by (nonlinear_arith)
        requires
            limit == pow2(277) - pow2(252),
            pow2(277) == 0x100_0000 * unit,
            unit == 2 * pow2(252),
            top == 0xff_ffff,
    ;
    lemma_pow2_unfold(277);
    rounding::lemma_excess_unique(limit, 24, 253);
    rounding::lemma_round_parts(limit, 24, 253, top, pow2(252));
    rounding::lemma_excess_unique((limit - 1) as nat, 24, 253);
    rounding::lemma_round_parts((limit - 1) as nat, 24, 253, top, (pow2(252) - 1) as nat);
    assert((top + 1) * unit == top * unit + unit) by (nonlinear_arith);
    if m >= limit {
        rounding::lemma_round_monotone(limit, m, 24);
        assert(rounded >= pow2(277));
    } else {
        rounding::lemma_round_monotone(m, (limit - 1) as nat, 24);
        assert(rounded < pow2(277));
        lemma_encoding_is_small(x);
    }
}

/// The encoding of a finite result leaves the sign bit to the sign.
proof fn lemma_encoding_is_small(x: int)
    requires
        rounding::round_nat(rounding::magnitude(x), 24) < pow2(277),
    ensures
        float::encode_magnitude(rounding::round_nat(rounding::magnitude(x), 24)) < 0x7f80_0000,
{
    lemma2_to64();
    let m = rounding::magnitude(x);
    let (q, r, k) = lemma_parts(m, 24);
    let rounded = rounding::round_nat(m, 24);
    let (significand, exponent) = if rounded == q * pow2(k) {
        float::lemma_normal_form(q, k)
    } else {
        float::lemma_normal_form(q + 1, k)
    };
    float::lemma_encode(significand, exponent);
    assert(exponent < 254);
    assert(exponent * 0x80_0000 + significand < 0x7f80_0000);
}

/// A number that is worth what a finite encoding is worth is rounded to that encoding, up to the
/// sign of zero.
pub proof fn law_single_keeps_numbers(number: u32)
    requires
        float::is_finite(number),
    ensures
        float::value(float::nearest_single(float::value(number))) == float::value(number),
        float::is_finite(float::nearest_single(float::value(number))),
{
    float::lemma_single_is_exact(number);
    float::lemma_nearest_single(float::value(number));
}

} // verus!
