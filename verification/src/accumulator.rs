//! Accumulation of distances at double precision.
//!
//! A score is a running sum of binary32 distances that is rounded to 53 significant bits after each
//! term and to binary32 at the end. Every term is a multiple of 2^-149 below 2^128 in magnitude, so
//! the sum never leaves the normal binary64 range, and the whole computation is integer arithmetic
//! in units of 2^-149.

use crate::float;
use crate::rounding;
use vstd::arithmetic::mul::{lemma_mul_is_associative, lemma_mul_is_commutative};
use vstd::arithmetic::power2::{
    lemma2_to64, lemma2_to64_rest, lemma_pow2_adds, lemma_pow2_pos, lemma_pow2_strictly_increases,
    lemma_pow2_unfold, pow2,
};
use vstd::prelude::*;

verus! {

/// The leading bit of a full binary64 significand.
pub const DOUBLE_LEADING_BIT: u64 = 0x10_0000_0000_0000;

/// The sum of `terms`, each addition rounded to double precision.
pub open spec fn rounded_sum(terms: Seq<int>) -> int
    decreases terms.len(),
{
    if terms.len() == 0 {
        0
    } else {
        add_rounded(rounded_sum(terms.drop_last()), terms.last())
    }
}

/// The sum of `left` and `right`, rounded to double precision.
pub open spec fn add_rounded(left: int, right: int) -> int {
    rounding::round_int(left + right, float::DOUBLE_BITS as nat)
}

/// A double-precision sum of binary32 numbers.
#[derive(Clone, Copy)]
pub struct Accumulator {
    negative: bool,
    significand: u64,
    exponent: u32,
}

impl View for Accumulator {
    type V = int;

    /// The sum, in units of 2^-149.
    closed spec fn view(&self) -> int {
        signed(self.negative, self.significand * pow2(self.exponent as nat))
    }
}

/// `magnitude` with the given sign.
pub open spec fn signed(negative: bool, magnitude: int) -> int {
    if negative {
        -magnitude
    } else {
        magnitude
    }
}

impl Accumulator {
    /// The significand is full unless the exponent is the smallest one.
    #[verifier::type_invariant]
    spec fn normalized(self) -> bool {
        &&& self.significand < 2 * DOUBLE_LEADING_BIT
        &&& self.exponent > 0 ==> self.significand >= DOUBLE_LEADING_BIT
        &&& self.exponent <= 400
        &&& self.negative ==> self.significand > 0
    }

    /// The empty sum.
    pub fn zero() -> (sum: Accumulator)
        ensures
            sum@ == 0,
    {
        proof {
            lemma2_to64();
        }
        Accumulator { negative: false, significand: 0, exponent: 0 }
    }
}

/// The value of 2^127.
proof fn lemma_pow2_127()
    ensures
        pow2(127) == 0x8000_0000_0000_0000_0000_0000_0000_0000,
{
    lemma2_to64();
    lemma2_to64_rest();
    lemma_pow2_adds(63, 64);
}

/// Multiplying a short significand by a power of two is a shift.
proof fn lemma_shift(x: u128, shift: u32)
    requires
        (x < 0x20_0000_0000_0000 && shift <= 64) || (x < 0x100_0000 && shift <= 90),
    ensures
        (x << shift) == x * pow2(shift as nat),
        (x << shift) < 0x4000_0000_0000_0000_0000_0000_0000_0000,
    decreases shift,
{
    lemma2_to64();
    assert((x << shift) < 0x4000_0000_0000_0000_0000_0000_0000_0000) by (bit_vector)
        requires
            (x < 0x20_0000_0000_0000 && shift <= 64) || (x < 0x100_0000 && shift <= 90),
    ;
    if shift == 0 {
        assert(x << 0u32 == x) by (bit_vector);
        assert(x * pow2(0) == x);
    } else {
        let less = (shift - 1) as u32;
        lemma_shift(x, less);
        assert((x << shift) == 2 * (x << less)) by (bit_vector)
            requires
                (x < 0x20_0000_0000_0000 && shift <= 64) || (x < 0x100_0000 && shift <= 90),
                shift > 0,
                less == shift - 1,
        ;
        lemma_pow2_unfold(shift as nat);
        assert(x * pow2(shift as nat) == 2 * (x * pow2(less as nat))) by (nonlinear_arith)
            requires
                pow2(shift as nat) == 2 * pow2(less as nat),
        ;
    }
}

/// Rounds `x` to `bits` significant bits; the result is a significand and an exponent.
fn round_significand(x: u128, bits: u32) -> (parts: (u64, u32))
    requires
        0 < bits <= 53,
        x < 0x8000_0000_0000_0000_0000_0000_0000_0000,
    ensures
        parts.0 * pow2(parts.1 as nat) == rounding::round_nat(x as nat, bits as nat),
        parts.0 <= pow2(bits as nat),
        bits + parts.1 <= 127,
        parts.1 > 0 ==> parts.0 >= pow2((bits - 1) as nat),
{
    let leading: u64 = 1u64 << bits;
    proof {
        lemma2_to64();
        lemma_pow2_pos(bits as nat);
        lemma_pow2_strictly_increases(bits as nat, 54);
        lemma2_to64_rest();
        vstd::bits::lemma_u64_shl_is_mul(1, bits as u64);
        assert(1u64 << bits == 1u64 << (bits as u64)) by (bit_vector);
    }
    let mut bound: u128 = leading as u128;
    let mut unit: u128 = 1;
    let mut shift: u32 = 0;
    while x >= bound
        invariant
            0 < bits <= 53,
            x < 0x8000_0000_0000_0000_0000_0000_0000_0000,
            bound == pow2((bits + shift) as nat),
            unit == pow2(shift as nat),
            0 < unit <= bound,
            bits + shift <= 127,
            shift > 0 ==> x >= pow2((bits + shift - 1) as nat),
        decreases 127 - bits - shift,
    {
        proof {
            lemma_pow2_unfold((bits + shift + 1) as nat);
            lemma_pow2_unfold((shift + 1) as nat);
            if bits + shift == 127 {
                lemma_pow2_127();
            }
        }
        bound = bound * 2;
        unit = unit * 2;
        shift = shift + 1;
    }
    let quotient: u128 = x / unit;
    let rest: u128 = x % unit;
    proof {
        let (b, k) = (bits as nat, shift as nat);
        rounding::lemma_excess_unique(x as nat, b, k);
        lemma_pow2_adds(b, k);
        lemma_pow2_pos(k);
        vstd::arithmetic::div_mod::lemma_fundamental_div_mod(x as int, unit as int);
        lemma_mul_is_commutative(quotient as int, unit as int);
        rounding::lemma_round_parts(x as nat, b, k, quotient as nat, rest as nat);
        assert(quotient < pow2(b)) by (nonlinear_arith)
            requires
                x == unit * quotient + rest,
                rest >= 0,
                unit > 0,
                x < pow2(b) * unit,
        ;
        if k > 0 {
            lemma_pow2_adds((b - 1) as nat, k);
            let half = pow2((b - 1) as nat);
            assert(quotient >= half) by (nonlinear_arith)
                requires
                    x == unit * quotient + rest,
                    rest < unit,
                    unit > 0,
                    x >= half * unit,
            ;
        }
    }
    if rest > unit - rest || (rest == unit - rest && quotient % 2 == 1) {
        (quotient as u64 + 1, shift)
    } else {
        (quotient as u64, shift)
    }
}

/// Moves the significand towards `leading` as far as the exponent allows.
fn normalize(significand: u64, exponent: u32, leading: u64) -> (parts: (u64, u32))
    requires
        significand < 2 * leading,
        0 < leading <= DOUBLE_LEADING_BIT,
    ensures
        parts.0 * pow2(parts.1 as nat) == significand * pow2(exponent as nat),
        parts.0 < 2 * leading,
        parts.1 > 0 ==> parts.0 >= leading,
        parts.1 <= exponent,
{
    let mut s: u64 = significand;
    let mut e: u32 = exponent;
    while e > 0 && s < leading
        invariant
            s * pow2(e as nat) == significand * pow2(exponent as nat),
            s < 2 * leading,
            0 < leading <= DOUBLE_LEADING_BIT,
            e <= exponent,
        decreases e,
    {
        proof {
            lemma_pow2_unfold(e as nat);
            let half = pow2((e - 1) as nat);
            assert((2 * s) * half == s * (2 * half)) by (nonlinear_arith);
        }
        s = s * 2;
        e = e - 1;
    }
    (s, e)
}

/// The rounded sum of two signed magnitudes in units of 2^`exponent`.
fn add_aligned(
    left_negative: bool,
    left: u128,
    right_negative: bool,
    right: u128,
    exponent: u32,
) -> (sum: Accumulator)
    requires
        left < 0x4000_0000_0000_0000_0000_0000_0000_0000,
        right < 0x4000_0000_0000_0000_0000_0000_0000_0000,
        exponent <= 317,
    ensures
        sum@ == add_rounded(
            signed(left_negative, left * pow2(exponent as nat)),
            signed(right_negative, right * pow2(exponent as nat)),
        ),
{
    let (negative, total): (bool, u128) = if left_negative == right_negative {
        (left_negative, left + right)
    } else if left >= right {
        (left_negative, left - right)
    } else {
        (right_negative, right - left)
    };
    let (rounded, shift): (u64, u32) = round_significand(total, 53);
    proof {
        lemma2_to64_rest();
    }
    let (significand, raised): (u64, u32) = if rounded == 2 * DOUBLE_LEADING_BIT {
        (DOUBLE_LEADING_BIT, shift + 1)
    } else {
        (rounded, shift)
    };
    let (s, e): (u64, u32) = normalize(significand, exponent + raised, DOUBLE_LEADING_BIT);
    proof {
        let unit = pow2(exponent as nat);
        let wide = rounding::round_nat(total as nat, 53);
        lemma_pow2_pos(exponent as nat);
        lemma_pow2_unfold((shift + 1) as nat);
        assert(significand * pow2(raised as nat) == wide) by {
            assert(DOUBLE_LEADING_BIT * (2 * pow2(shift as nat)) == (2 * DOUBLE_LEADING_BIT) * pow2(
                shift as nat,
            ));
        }
        lemma_pow2_adds(exponent as nat, raised as nat);
        assert(significand * pow2((exponent + raised) as nat) == wide * unit) by (nonlinear_arith)
            requires
                pow2((exponent + raised) as nat) == unit * pow2(raised as nat),
                significand * pow2(raised as nat) == wide,
        ;
        rounding::lemma_round_scaled(total as nat, 53, exponent as nat);
        assert(s * pow2(e as nat) == rounding::round_nat((total * unit) as nat, 53));
        assert((left + right) * unit == left * unit + right * unit) by (nonlinear_arith);
        assert((left - right) * unit == left * unit - right * unit) by (nonlinear_arith);
        assert((right - left) * unit == right * unit - left * unit) by (nonlinear_arith);
        assert(0 <= total * unit) by (nonlinear_arith)
            requires
                unit > 0,
        ;
        assert(total > 0 ==> total * unit > 0) by (nonlinear_arith)
            requires
                unit > 0,
        ;
        assert(0 <= left * unit && 0 <= right * unit) by (nonlinear_arith)
            requires
                unit > 0,
        ;
        assert(0 * unit == 0);
        lemma_round_zero();
        lemma_pow2_pos(e as nat);
        assert(s == 0 ==> s * pow2(e as nat) == 0);
        assert(s > 0 ==> s * pow2(e as nat) > 0) by (nonlinear_arith)
            requires
                pow2(e as nat) > 0,
        ;
    }
    Accumulator { negative: negative && s > 0, significand: s, exponent: e }
}

/// Zero is its own rounding.
proof fn lemma_round_zero()
    ensures
        rounding::round_nat(0, 53) == 0,
{
    lemma2_to64();
    lemma_pow2_pos(53);
    rounding::lemma_round_exact(0, 53, 0);
}

/// Adding less than a quarter of the last place changes nothing.
proof fn lemma_absorbed(big: int, small: int, significand: nat, shift: nat)
    requires
        pow2(52) <= significand < pow2(53),
        rounding::magnitude(big) == significand * pow2(shift),
        4 * rounding::magnitude(small) < pow2(shift),
    ensures
        add_rounded(big, small) == big,
{
    let change = rounding::magnitude(small);
    let whole = significand * pow2(shift);
    rounding::lemma_round_absorbs(significand, 53, shift, change);
    lemma_pow2_pos(52);
    lemma_pow2_pos(shift);
    assert(whole > change) by (nonlinear_arith)
        requires
            whole == significand * pow2(shift),
            significand >= 1,
            4 * change < pow2(shift),
            change >= 0,
    ;
    if (big < 0) == (small < 0) {
        assert(rounding::magnitude(big + small) == whole + change);
    } else {
        assert(rounding::magnitude(big + small) == whole - change || small == 0);
    }
}

impl Accumulator {
    /// Adds the finite distance `term`.
    pub fn add(self, term: u32) -> (sum: Accumulator)
        requires
            float::is_finite(term),
        ensures
            sum@ == add_rounded(self@, float::value(term)),
    {
        proof {
            use_type_invariant(&self);
            lemma2_to64();
            lemma2_to64_rest();
        }
        let term_negative: bool = term >= float::SIGN_BIT;
        let (term_significand, term_exponent): (u64, u32) = float::decode(term);
        if self.exponent >= term_exponent {
            let shift: u32 = self.exponent - term_exponent;
            if shift > 64 {
                proof {
                    let (e, t) = (self.exponent as nat, term_exponent as nat);
                    lemma_pow2_adds(t, (e - t) as nat);
                    lemma_pow2_pos(t);
                    if e - t > 65 {
                        lemma_pow2_strictly_increases(65, (e - t) as nat);
                    }
                    lemma_pow2_unfold(65);
                    assert(4 * (term_significand * pow2(t)) < pow2(e)) by (nonlinear_arith)
                        requires
                            pow2(e) == pow2(t) * pow2((e - t) as nat),
                            pow2((e - t) as nat) >= 0x1_0000_0000_0000_0000,
                            term_significand < 0x100_0000,
                            pow2(t) > 0,
                    ;
                    lemma_signed(self.negative, self.significand * pow2(e));
                    lemma_signed(term_negative, term_significand * pow2(t));
                    lemma_absorbed(self@, float::value(term), self.significand as nat, e);
                }
                return self;
            }
            let aligned: u128 = (self.significand as u128) << shift;
            proof {
                let (e, t) = (self.exponent as nat, term_exponent as nat);
                lemma_shift(self.significand as u128, shift);
                lemma_pow2_adds(shift as nat, t);
                lemma_mul_is_associative(
                    self.significand as int,
                    pow2(shift as nat) as int,
                    pow2(t) as int,
                );
                assert(aligned * pow2(t) == self.significand * pow2(e));
            }
            add_aligned(
                self.negative,
                aligned,
                term_negative,
                term_significand as u128,
                term_exponent,
            )
        } else {
            let shift: u32 = term_exponent - self.exponent;
            if shift > 84 {
                let significand: u64 = term_significand * 0x2000_0000;
                let exponent: u32 = term_exponent - 29;
                proof {
                    let (e, t) = (self.exponent as nat, term_exponent as nat);
                    lemma_pow2_adds(29, (t - 29) as nat);
                    lemma_mul_is_associative(
                        term_significand as int,
                        pow2(29) as int,
                        pow2((t - 29) as nat) as int,
                    );
                    assert(significand * pow2((t - 29) as nat) == term_significand * pow2(t));
                    lemma_pow2_adds(e, (t - 29 - e) as nat);
                    lemma_pow2_pos(e);
                    if t - 29 - e > 56 {
                        lemma_pow2_strictly_increases(56, (t - 29 - e) as nat);
                    }
                    assert(4 * (self.significand * pow2(e)) < pow2((t - 29) as nat)) by (nonlinear_arith)
                        requires
                            pow2((t - 29) as nat) == pow2(e) * pow2((t - 29 - e) as nat),
                            pow2((t - 29 - e) as nat) >= 0x100_0000_0000_0000,
                            self.significand < 0x20_0000_0000_0000,
                            pow2(e) > 0,
                    ;
                    lemma_signed(self.negative, self.significand * pow2(e));
                    lemma_signed(term_negative, term_significand * pow2(t));
                    lemma_absorbed(
                        float::value(term),
                        self@,
                        significand as nat,
                        (t - 29) as nat,
                    );
                }
                return Accumulator { negative: term_negative, significand, exponent };
            }
            let aligned: u128 = (term_significand as u128) << shift;
            proof {
                let (e, t) = (self.exponent as nat, term_exponent as nat);
                lemma_shift(term_significand as u128, shift);
                lemma_pow2_adds(shift as nat, e);
                lemma_mul_is_associative(
                    term_significand as int,
                    pow2(shift as nat) as int,
                    pow2(e) as int,
                );
                assert(aligned * pow2(e) == term_significand * pow2(t));
            }
            add_aligned(
                self.negative,
                self.significand as u128,
                term_negative,
                aligned,
                self.exponent,
            )
        }
    }

    /// The binary32 number nearest to the sum, ties to even; infinite where the sum is too large.
    pub fn to_single(self) -> (number: u32)
        ensures
            number == float::nearest_single(self@),
    {
        proof {
            use_type_invariant(&self);
            lemma2_to64();
        }
        let (rounded, shift): (u64, u32) = round_significand(self.significand as u128, 24);
        let leading: u64 = float::LEADING_BIT as u64;
        let (significand, raised): (u64, u32) = if rounded == 2 * leading {
            (leading, shift + 1)
        } else {
            (rounded, shift)
        };
        let (s, e): (u64, u32) = normalize(significand, self.exponent + raised, leading);
        proof {
            let unit = pow2(self.exponent as nat);
            let wide = rounding::round_nat(self.significand as nat, 24);
            lemma_pow2_unfold((shift + 1) as nat);
            assert(significand * pow2(raised as nat) == wide) by {
                assert(leading * (2 * pow2(shift as nat)) == (2 * leading) * pow2(shift as nat));
            }
            lemma_pow2_adds(self.exponent as nat, raised as nat);
            assert(significand * pow2((self.exponent + raised) as nat) == wide * unit)
                by (nonlinear_arith)
                requires
                    pow2((self.exponent + raised) as nat) == unit * pow2(raised as nat),
                    significand * pow2(raised as nat) == wide,
            ;
            rounding::lemma_round_scaled(self.significand as nat, 24, self.exponent as nat);
            lemma_signed(self.negative, self.significand * unit);
            assert(s * pow2(e as nat) == rounding::round_nat(rounding::magnitude(self@), 24));
            float::lemma_encode(s as nat, e as nat);
            lemma_pow2_pos(self.exponent as nat);
            assert(self.negative ==> self@ < 0) by {
                assert(self.significand > 0 ==> self.significand * unit > 0) by (nonlinear_arith)
                    requires
                        unit > 0,
                ;
            }
        }
        let bits: u32 = if e >= 254 {
            float::INFINITY
        } else {
            e * float::LEADING_BIT + s as u32
        };
        if self.negative {
            float::SIGN_BIT + bits
        } else {
            bits
        }
    }
}

/// The magnitude of a signed magnitude.
proof fn lemma_signed(negative: bool, magnitude: int)
    requires
        magnitude >= 0,
    ensures
        rounding::magnitude(signed(negative, magnitude)) == magnitude,
{
}

} // verus!
