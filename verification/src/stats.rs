//! Scalar statistical functions: the logistic function and its inverse,
//! and the Box-Cox transformations.  An argument outside a function's
//! domain is reported as `None` rather than trapped; a NaN slips past the
//! domain comparisons, exactly as IEEE-754 comparison semantics dictate,
//! and propagates through the arithmetic.

use vstd::prelude::*;
use crate::scalar::{
    add_bits, div_bits, exp_bits, eq_bits, ln_bits, lt_bits, mul_bits, neg_bits, pow_bits,
    sub_bits, fadd, fdiv, fexp, feq, fln, flt, fmul, fneg, fpow, fsub, F64_ONE, F64_ZERO,
};

verus! {

/// The standard logistic function `1 / (1 + exp(-x))`.
pub open spec fn logistic_bits(x: u64) -> u64 {
    div_bits(F64_ONE, add_bits(F64_ONE, exp_bits(neg_bits(x))))
}

/// The standard logistic function.
pub fn logistic(x: u64) -> (r: u64)
    ensures
        r == logistic_bits(x),
{
    fdiv(F64_ONE, fadd(F64_ONE, fexp(fneg(x))))
}

/// The logit `ln(p / (1 - p))`.
pub open spec fn logit_bits(p: u64) -> u64 {
    ln_bits(div_bits(p, sub_bits(F64_ONE, p)))
}

/// The logit, defined for `p` in `[0, 1]`: `None` exactly when `p`
/// compares below zero or above one.
pub fn logit(p: u64) -> (r: Option<u64>)
    ensures
        (match r {
            Some(v) => !lt_bits(p, F64_ZERO) && !lt_bits(F64_ONE, p) && v == logit_bits(p),
            None => lt_bits(p, F64_ZERO) || lt_bits(F64_ONE, p),
        }),
{
    if flt(p, F64_ZERO) || flt(F64_ONE, p) {
        return None;
    }
    Some(fln(fdiv(p, fsub(F64_ONE, p))))
}

/// The one-parameter Box-Cox transform: `ln(x)` at power zero, else
/// `(x^lambda - 1) / lambda`.
pub open spec fn boxcox_bits(x: u64, lambda: u64) -> u64 {
    if eq_bits(lambda, F64_ZERO) {
        ln_bits(x)
    } else {
        div_bits(sub_bits(pow_bits(x, lambda), F64_ONE), lambda)
    }
}

/// The one-parameter Box-Cox transform, defined for positive `x`: `None`
/// exactly when `x` does not compare above zero.
pub fn boxcox(x: u64, lambda: u64) -> (r: Option<u64>)
    ensures
        (match r {
            Some(v) => lt_bits(F64_ZERO, x) && v == boxcox_bits(x, lambda),
            None => !lt_bits(F64_ZERO, x),
        }),
{
    if !flt(F64_ZERO, x) {
        return None;
    }
    if feq(lambda, F64_ZERO) {
        Some(fln(x))
    } else {
        Some(fdiv(fsub(fpow(x, lambda), F64_ONE), lambda))
    }
}

/// The two-parameter Box-Cox transform over the shifted value `x + alpha`:
/// `ln(x + alpha)` at power zero, else `((x + alpha)^lambda - 1) / lambda`.
pub open spec fn boxcox_shifted_bits(x: u64, lambda: u64, alpha: u64) -> u64 {
    if eq_bits(lambda, F64_ZERO) {
        ln_bits(add_bits(x, alpha))
    } else {
        div_bits(sub_bits(pow_bits(add_bits(x, alpha), lambda), F64_ONE), lambda)
    }
}

/// The two-parameter Box-Cox transform, defined when `x` compares above
/// the shift `alpha`.
pub fn boxcox_shifted(x: u64, lambda: u64, alpha: u64) -> (r: Option<u64>)
    ensures
        (match r {
            Some(v) => lt_bits(alpha, x) && v == boxcox_shifted_bits(x, lambda, alpha),
            None => !lt_bits(alpha, x),
        }),
{
    if !flt(alpha, x) {
        return None;
    }
    if feq(lambda, F64_ZERO) {
        Some(fln(fadd(x, alpha)))
    } else {
        Some(fdiv(fsub(fpow(fadd(x, alpha), lambda), F64_ONE), lambda))
    }
}

} // verus!
