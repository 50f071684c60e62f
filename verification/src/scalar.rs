//! IEEE-754 double-precision scalars, carried as their 64-bit patterns.
//!
//! Verified code never manipulates a floating-point type directly: a scalar
//! is a `u64` holding the IEEE-754 binary64 encoding of its value. The
//! arithmetic primitives are performed by `rustc_apfloat`, a software
//! implementation of IEEE-754 binary64, behind trusted wrappers. Each
//! primitive's result is named by an uninterpreted spec function of the
//! operand bits, so contracts further up pin every computed entry as a
//! composition of those names. Sign manipulation (negation, absolute value)
//! is pure bit logic and is implemented and verified here directly.

use vstd::prelude::*;

use rustc_apfloat::Float;
use rustc_apfloat::Round;
use rustc_apfloat::ieee::Double;

verus! {

/// Bits of +0.0.
pub const F_ZERO: u64 = 0x0000000000000000;
/// Bits of 1.0.
pub const F_ONE: u64 = 0x3FF0000000000000;
/// Bits of 2.0.
pub const F_TWO: u64 = 0x4000000000000000;
/// Bits of 0.5.
pub const F_HALF: u64 = 0x3FE0000000000000;
/// Bits of positive infinity.
pub const F_INFINITY: u64 = 0x7FF0000000000000;
/// Bits of negative infinity.
pub const F_NEG_INFINITY: u64 = 0xFFF0000000000000;
/// The IEEE-754 binary64 sign bit.
pub const SIGN_BIT: u64 = 0x8000000000000000;

/// Bits of log2(e), used for argument reduction in the exponential.
pub const LOG2_E: u64 = 0x3FF71547652B82FE;
/// Bits of the high part of ln(2) (Cody-Waite split).
pub const LN2_HI: u64 = 0x3FE62E42FEE00000;
/// Bits of the low part of ln(2) (Cody-Waite split).
pub const LN2_LO: u64 = 0x3DEA39EF35793C76;
/// Bits of -708.0; the exponential underflows to zero below it.
pub const EXP_LO_CUT: u64 = 0xC086200000000000;
/// Bits of 709.0; the exponential overflows to infinity above it.
pub const EXP_HI_CUT: u64 = 0x4086280000000000;

/// Bits of 0.01, the accuracy check's per-component tolerance.
pub const TOL_HUNDREDTH: u64 = 0x3F847AE147AE147B;

/// Bits of 1e-10, the guard against a near-zero normalizing denominator.
pub const EPS_TINY: u64 = 0x3DDB7CDFD9D7BDBB;

/// Bits of 1/2!.
pub const INV_FACT_2: u64 = 0x3FE0000000000000;
/// Bits of 1/3!.
pub const INV_FACT_3: u64 = 0x3FC5555555555555;
/// Bits of 1/4!.
pub const INV_FACT_4: u64 = 0x3FA5555555555555;
/// Bits of 1/5!.
pub const INV_FACT_5: u64 = 0x3F81111111111111;
/// Bits of 1/6!.
pub const INV_FACT_6: u64 = 0x3F56C16C16C16C17;
/// Bits of 1/7!.
pub const INV_FACT_7: u64 = 0x3F2A01A01A01A01A;
/// Bits of 1/8!.
pub const INV_FACT_8: u64 = 0x3EFA01A01A01A01A;
/// Bits of 1/9!.
pub const INV_FACT_9: u64 = 0x3EC71DE3A556C734;
/// Bits of 1/10!.
pub const INV_FACT_10: u64 = 0x3E927E4FB7789F5C;
/// Bits of 1/11!.
pub const INV_FACT_11: u64 = 0x3E5AE64567F544E4;
/// Bits of 1/12!.
pub const INV_FACT_12: u64 = 0x3E21EED8EFF8D898;
/// Bits of 1/13!.
pub const INV_FACT_13: u64 = 0x3DE6124613A86D09;

/// The bits of the IEEE-754 sum of the two scalars (round to nearest even).
pub uninterp spec fn add_bits(a: u64, b: u64) -> u64;

/// The bits of the IEEE-754 difference of the two scalars.
pub uninterp spec fn sub_bits(a: u64, b: u64) -> u64;

/// The bits of the IEEE-754 product of the two scalars.
pub uninterp spec fn mul_bits(a: u64, b: u64) -> u64;

/// The bits of the IEEE-754 quotient of the two scalars.
pub uninterp spec fn div_bits(a: u64, b: u64) -> u64;

/// Whether the first scalar compares strictly below the second
/// (false whenever either is a NaN).
pub uninterp spec fn lt_bits(a: u64, b: u64) -> bool;

/// The scalar rounded to the nearest 64-bit integer, ties to even,
/// saturating on overflow and yielding 0 on NaN.
pub uninterp spec fn round_bits(a: u64) -> i64;

/// The bits of the scalar nearest to the given signed integer.
pub uninterp spec fn of_int_bits(k: i64) -> u64;

/// The bits of the scalar nearest to the given unsigned integer.
pub uninterp spec fn of_uint_bits(n: u64) -> u64;

/// IEEE-754 negation: the sign bit flipped.
pub open spec fn neg_bits(a: u64) -> u64 {
    a ^ SIGN_BIT
}

/// IEEE-754 absolute value: the sign bit cleared.
pub open spec fn abs_bits(a: u64) -> u64 {
    a & !SIGN_BIT
}

/// The scalar lies in the half-open interval [-1, 1): strictly below 1.0
/// and not below -1.0. A NaN compares false against everything, so the
/// first conjunct also rules NaN out.
pub open spec fn in_unit_range(e: u64) -> bool {
    lt_bits(e, F_ONE) && !lt_bits(e, neg_bits(F_ONE))
}

/// Relies on rustc_apfloat's `Double` addition (`Float::add_r` through `+`,
/// round to nearest even), a software IEEE-754 binary64 sum of the operand
/// bits and nothing else.
#[verifier::external_body]
pub(crate) fn fadd(a: u64, b: u64) -> (r: u64)
    ensures
        r == add_bits(a, b),
{
    let x = Double::from_bits(a as u128);
    let y = Double::from_bits(b as u128);
    (x + y).value.to_bits() as u64
}

/// Relies on rustc_apfloat's `Double` subtraction (`Float::sub_r` through `-`).
#[verifier::external_body]
pub(crate) fn fsub(a: u64, b: u64) -> (r: u64)
    ensures
        r == sub_bits(a, b),
{
    let x = Double::from_bits(a as u128);
    let y = Double::from_bits(b as u128);
    (x - y).value.to_bits() as u64
}

/// Relies on rustc_apfloat's `Double` multiplication (`Float::mul_r` through `*`).
#[verifier::external_body]
pub(crate) fn fmul(a: u64, b: u64) -> (r: u64)
    ensures
        r == mul_bits(a, b),
{
    let x = Double::from_bits(a as u128);
    let y = Double::from_bits(b as u128);
    (x * y).value.to_bits() as u64
}

/// Relies on rustc_apfloat's `Double` division (`Float::div_r` through `/`).
#[verifier::external_body]
pub(crate) fn fdiv(a: u64, b: u64) -> (r: u64)
    ensures
        r == div_bits(a, b),
{
    let x = Double::from_bits(a as u128);
    let y = Double::from_bits(b as u128);
    (x / y).value.to_bits() as u64
}

/// Relies on rustc_apfloat's `PartialOrd for IeeeFloat`: `lt` is the IEEE-754
/// ordering, false on NaN operands.
#[verifier::external_body]
pub(crate) fn flt(a: u64, b: u64) -> (r: bool)
    ensures
        r == lt_bits(a, b),
{
    let x = Double::from_bits(a as u128);
    let y = Double::from_bits(b as u128);
    x < y
}

/// Relies on rustc_apfloat's `Float::to_i128_r`, which rounds to an integer
/// in the asked-for width, saturates on overflow and returns 0 for NaN.
#[verifier::external_body]
pub(crate) fn f_round(a: u64) -> (r: i64)
    ensures
        r == round_bits(a),
{
    let x = Double::from_bits(a as u128);
    let mut exact = false;
    x.to_i128_r(64, Round::NearestTiesToEven, &mut exact).value as i64
}

/// Relies on rustc_apfloat's `Float::from_i128_r` (round to nearest even).
#[verifier::external_body]
pub(crate) fn f_of_int(k: i64) -> (r: u64)
    ensures
        r == of_int_bits(k),
{
    Double::from_i128_r(k as i128, Round::NearestTiesToEven).value.to_bits() as u64
}

/// Relies on rustc_apfloat's `Float::from_u128_r` (round to nearest even).
#[verifier::external_body]
pub(crate) fn f_of_uint(n: u64) -> (r: u64)
    ensures
        r == of_uint_bits(n),
{
    Double::from_u128_r(n as u128, Round::NearestTiesToEven).value.to_bits() as u64
}

/// The power of two 2^k as a scalar, built directly from the binary64
/// encoding; meaningful for `-1021 <= k <= 1023`, where the result is a
/// normal number.
pub open spec fn pow2_bits(k: i64) -> u64 {
    (((k + 1023) as u64) << 52) as u64
}

/// The reduction exponent for the exponential of `x`: the nearest integer
/// to `x * log2(e)`, clamped into the range where 2^k is a normal number.
pub open spec fn exp_reduction(x: u64) -> i64 {
    let k0 = round_bits(mul_bits(x, LOG2_E));
    if k0 < -1021 {
        (-1021) as i64
    } else if k0 > 1023 {
        1023 as i64
    } else {
        k0
    }
}

/// The degree-13 Taylor polynomial of e^r, evaluated by Horner's rule
/// on scalar bits.
pub open spec fn exp_poly(r: u64) -> u64 {
    let p = INV_FACT_13;
    let p = add_bits(mul_bits(p, r), INV_FACT_12);
    let p = add_bits(mul_bits(p, r), INV_FACT_11);
    let p = add_bits(mul_bits(p, r), INV_FACT_10);
    let p = add_bits(mul_bits(p, r), INV_FACT_9);
    let p = add_bits(mul_bits(p, r), INV_FACT_8);
    let p = add_bits(mul_bits(p, r), INV_FACT_7);
    let p = add_bits(mul_bits(p, r), INV_FACT_6);
    let p = add_bits(mul_bits(p, r), INV_FACT_5);
    let p = add_bits(mul_bits(p, r), INV_FACT_4);
    let p = add_bits(mul_bits(p, r), INV_FACT_3);
    let p = add_bits(mul_bits(p, r), INV_FACT_2);
    let p = add_bits(mul_bits(p, r), F_ONE);
    add_bits(mul_bits(p, r), F_ONE)
}

/// The library's exponential of a scalar: zero below the underflow cut,
/// infinity above the overflow cut, and otherwise Cody-Waite argument
/// reduction `x = k*ln2 + r` followed by the Taylor polynomial of e^r
/// scaled by 2^k.
pub open spec fn exp_bits(x: u64) -> u64 {
    if lt_bits(x, EXP_LO_CUT) {
        F_ZERO
    } else if lt_bits(EXP_HI_CUT, x) {
        F_INFINITY
    } else {
        let k = exp_reduction(x);
        let kf = of_int_bits(k);
        let r = sub_bits(sub_bits(x, mul_bits(kf, LN2_HI)), mul_bits(kf, LN2_LO));
        mul_bits(exp_poly(r), pow2_bits(k))
    }
}

/// The exponential on scalar bits, computed through the arithmetic
/// primitives; `exp(0)` is exactly 1 and the polynomial error stays far
/// below double-precision rounding noise over the reduced range.
pub(crate) fn fexp(x: u64) -> (r: u64)
    ensures
        r == exp_bits(x),
{
    if flt(x, EXP_LO_CUT) {
        return F_ZERO;
    }
    if flt(EXP_HI_CUT, x) {
        return F_INFINITY;
    }
    let k0 = f_round(fmul(x, LOG2_E));
    let k: i64 = if k0 < -1021 {
        -1021
    } else if k0 > 1023 {
        1023
    } else {
        k0
    };
    let kf = f_of_int(k);
    let red = fsub(fsub(x, fmul(kf, LN2_HI)), fmul(kf, LN2_LO));
    let mut p = INV_FACT_13;
    p = fadd(fmul(p, red), INV_FACT_12);
    p = fadd(fmul(p, red), INV_FACT_11);
    p = fadd(fmul(p, red), INV_FACT_10);
    p = fadd(fmul(p, red), INV_FACT_9);
    p = fadd(fmul(p, red), INV_FACT_8);
    p = fadd(fmul(p, red), INV_FACT_7);
    p = fadd(fmul(p, red), INV_FACT_6);
    p = fadd(fmul(p, red), INV_FACT_5);
    p = fadd(fmul(p, red), INV_FACT_4);
    p = fadd(fmul(p, red), INV_FACT_3);
    p = fadd(fmul(p, red), INV_FACT_2);
    p = fadd(fmul(p, red), F_ONE);
    p = fadd(fmul(p, red), F_ONE);
    let scale: u64 = ((k + 1023) as u64) << 52;
    assert(scale == pow2_bits(k));
    fmul(p, scale)
}

/// IEEE-754 negation, implemented directly on the bits.
pub(crate) fn fneg(a: u64) -> (r: u64)
    ensures
        r == neg_bits(a),
{
    a ^ SIGN_BIT
}

/// IEEE-754 absolute value, implemented directly on the bits.
pub(crate) fn fabs(a: u64) -> (r: u64)
    ensures
        r == abs_bits(a),
{
    a & !SIGN_BIT
}

} // verus!
