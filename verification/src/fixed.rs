//! Saturating fixed-point scalars.
//!
//! A scalar is stored as an `i64` of `bits`; its real value is
//! `bits / SCALE`.  Addition, subtraction and multiplication clamp their
//! result into `[-MAX_MAG, MAX_MAG]` instead of wrapping, so every
//! operation is total.  Multiplication rescales with truncating
//! (round-toward-zero) division.

use vstd::prelude::*;

verus! {

/// Fixed-point scale: a stored `bits` value denotes the real number
/// `bits / SCALE`, so `SCALE` itself denotes `1.0`.
pub const SCALE: i64 = 65536;

/// Half of [`SCALE`]; denotes the real number `0.5`.
pub const HALF: i64 = 32768;

/// Largest magnitude a scalar may take.  Arithmetic saturates at
/// `MAX_MAG` and `-MAX_MAG`; the range is symmetric, so negation never
/// overflows.
pub const MAX_MAG: i64 = 0x7fff_ffff_ffff_ffff;

/// Clamp an unbounded integer result into the representable range.
pub open spec fn sat(x: int) -> int {
    if x > MAX_MAG as int {
        MAX_MAG as int
    } else if x < -(MAX_MAG as int) {
        -(MAX_MAG as int)
    } else {
        x
    }
}

/// Truncating (round-toward-zero) division by a positive divisor, the
/// rounding used when a product of two scaled values is rescaled.
pub open spec fn tdiv(p: int, d: int) -> int
    recommends
        d > 0,
{
    if p >= 0 {
        p / d
    } else {
        -((-p) / d)
    }
}

/// Saturating fixed-point addition.
pub open spec fn fx_add(a: int, b: int) -> int {
    sat(a + b)
}

/// Saturating fixed-point subtraction.
pub open spec fn fx_sub(a: int, b: int) -> int {
    sat(a - b)
}

/// Saturating fixed-point multiplication: the double-width product is
/// rescaled by `SCALE` with truncating division, then clamped.
pub open spec fn fx_mul(a: int, b: int) -> int {
    sat(tdiv(a * b, SCALE as int))
}

/// The layers' activation function: the hard sigmoid
/// `clamp(z/4 + 1/2, 0, 1)`, a piecewise-linear logistic curve.  Its
/// value at `0` is `1/2` (`HALF` in stored bits) and its slope there is
/// `1/4`, matching the logistic function.
pub open spec fn act(z: int) -> int {
    let lin = tdiv(z, 4) + HALF as int;
    if lin < 0 {
        0
    } else if lin > SCALE as int {
        SCALE as int
    } else {
        lin
    }
}

/// The derivative-from-output policy used by backpropagation: the
/// logistic form `d(o) = o * (1 - o)`, evaluated at a layer's output
/// rather than its pre-activation input.
pub open spec fn act_deriv(o: int) -> int {
    fx_mul(o, fx_sub(SCALE as int, o))
}

/// Saturating fixed-point addition.
pub fn add_fx(a: i64, b: i64) -> (r: i64)
    ensures
        r as int == fx_add(a as int, b as int),
        -MAX_MAG <= r <= MAX_MAG,
{
    let s: i128 = a as i128 + b as i128;
    if s > MAX_MAG as i128 {
        MAX_MAG
    } else if s < -(MAX_MAG as i128) {
        -MAX_MAG
    } else {
        s as i64
    }
}

/// Saturating fixed-point subtraction.
pub fn sub_fx(a: i64, b: i64) -> (r: i64)
    ensures
        r as int == fx_sub(a as int, b as int),
        -MAX_MAG <= r <= MAX_MAG,
{
    let s: i128 = a as i128 - b as i128;
    if s > MAX_MAG as i128 {
        MAX_MAG
    } else if s < -(MAX_MAG as i128) {
        -MAX_MAG
    } else {
        s as i64
    }
}

/// Saturating fixed-point multiplication.
pub fn mul_fx(a: i64, b: i64) -> (r: i64)
    ensures
        r as int == fx_mul(a as int, b as int),
        -MAX_MAG <= r <= MAX_MAG,
{
    proof {
        let ai = a as int;
        let bi = b as int;
        assert(-(i128::MAX as int) <= ai * bi <= i128::MAX as int) by (nonlinear_arith)
            requires
                i64::MIN as int <= ai <= i64::MAX as int,
                i64::MIN as int <= bi <= i64::MAX as int,
        ;
    }
    let p: i128 = (a as i128) * (b as i128);
    let neg: bool = p < 0;
    let m: u128 = if neg {
        (-p) as u128
    } else {
        p as u128
    };
    let q: u128 = m / (SCALE as u128);
    let qc: i64 = if q > MAX_MAG as u128 {
        MAX_MAG
    } else {
        q as i64
    };
    if neg {
        -qc
    } else {
        qc
    }
}

/// The hard-sigmoid activation on stored bits.
pub fn act_fx(z: i64) -> (r: i64)
    requires
        -MAX_MAG <= z,
    ensures
        r as int == act(z as int),
        0 <= r <= SCALE,
{
    let quarter: i64 = if z >= 0 {
        ((z as u64) / 4) as i64
    } else {
        -((((-z) as u64) / 4) as i64)
    };
    let lin: i64 = quarter + HALF;
    if lin < 0 {
        0
    } else if lin > SCALE {
        SCALE
    } else {
        lin
    }
}

/// The derivative-from-output policy on stored bits.
pub fn act_deriv_fx(o: i64) -> (r: i64)
    ensures
        r as int == act_deriv(o as int),
        -MAX_MAG <= r <= MAX_MAG,
{
    mul_fx(o, sub_fx(SCALE, o))
}

} // verus!
