//! The scalar layer: IEEE-754 double-precision values as `u64` bit patterns.
//!
//! The verifier has no model of floating-point arithmetic, so every scalar
//! is carried as the 64-bit pattern of an IEEE-754 double.  Each primitive
//! operation is delegated to the `libm` crate (or to the hardware float
//! unit) through a thin trusted wrapper, and its result is pinned to an
//! uninterpreted spec function of the operand bit patterns alone.  That is
//! sound because every one of these operations is a deterministic function
//! of its operand bits: the basic arithmetic is IEEE-754-exact, and the
//! `libm` routines are pure Rust.
//!
//! Inside the wrapper bodies, `bytemuck::cast` turns a bit pattern into the
//! double it encodes (a safe, size-preserving transmute), and
//! `libm::copysign` of a value with its own sign — which returns the value
//! unchanged, bit for bit — fixes the type of the cast where no other
//! operand does.

use vstd::prelude::*;
use vstd::arithmetic::power2::*;
use vstd::arithmetic::div_mod::*;
use vstd::arithmetic::mul::*;

verus! {

/// Bit pattern of positive zero.
pub const F64_ZERO: u64 = 0x0000_0000_0000_0000;
/// Bit pattern of one.
pub const F64_ONE: u64 = 0x3FF0_0000_0000_0000;
/// Bit pattern of two.
pub const F64_TWO: u64 = 0x4000_0000_0000_0000;
/// Bit pattern of positive infinity.
pub const F64_INF: u64 = 0x7FF0_0000_0000_0000;
/// The sign bit: the bit patterns of a double and of its negation differ
/// exactly by this most-significant bit.
pub const F64_SIGN: u64 = 0x8000_0000_0000_0000;

/// The bits of the IEEE-754 sum of the doubles with bit patterns `a` and `b`.
pub uninterp spec fn add_bits(a: u64, b: u64) -> u64;

/// The bits of the IEEE-754 difference of the doubles `a` and `b`.
pub uninterp spec fn sub_bits(a: u64, b: u64) -> u64;

/// The bits of the IEEE-754 product of the doubles `a` and `b`.
pub uninterp spec fn mul_bits(a: u64, b: u64) -> u64;

/// The bits of the IEEE-754 quotient of the doubles `a` and `b`.
pub uninterp spec fn div_bits(a: u64, b: u64) -> u64;

/// The bits of the correctly rounded square root of the double `a`.
pub uninterp spec fn sqrt_bits(a: u64) -> u64;

/// The bits of `libm`'s natural exponential of the double `a`.
pub uninterp spec fn exp_bits(a: u64) -> u64;

/// The bits of `libm`'s natural logarithm of the double `a`.
pub uninterp spec fn ln_bits(a: u64) -> u64;

/// The bits of `libm`'s `a` raised to the power `b`, on doubles.
pub uninterp spec fn pow_bits(a: u64, b: u64) -> u64;

/// Whether the double `a` compares strictly less than the double `b`.
pub uninterp spec fn lt_bits(a: u64, b: u64) -> bool;

/// Whether the doubles `a` and `b` compare equal (IEEE-754 equality, not
/// equality of the bit patterns).
pub uninterp spec fn eq_bits(a: u64, b: u64) -> bool;

/// Relies on `f64` addition: IEEE-754 binary64 arithmetic, a deterministic
/// function of the two operand bit patterns.
#[verifier::external_body]
pub(crate) fn fadd(a: u64, b: u64) -> (r: u64)
    ensures
        r == add_bits(a, b),
{
    let x = libm::copysign(bytemuck::cast(a), bytemuck::cast(a));
    let y = libm::copysign(bytemuck::cast(b), bytemuck::cast(b));
    (x + y).to_bits()
}

/// Relies on `f64` subtraction: IEEE-754 binary64 arithmetic.
#[verifier::external_body]
pub(crate) fn fsub(a: u64, b: u64) -> (r: u64)
    ensures
        r == sub_bits(a, b),
{
    let x = libm::copysign(bytemuck::cast(a), bytemuck::cast(a));
    let y = libm::copysign(bytemuck::cast(b), bytemuck::cast(b));
    (x - y).to_bits()
}

/// Relies on `f64` multiplication: IEEE-754 binary64 arithmetic.
#[verifier::external_body]
pub(crate) fn fmul(a: u64, b: u64) -> (r: u64)
    ensures
        r == mul_bits(a, b),
{
    let x = libm::copysign(bytemuck::cast(a), bytemuck::cast(a));
    let y = libm::copysign(bytemuck::cast(b), bytemuck::cast(b));
    (x * y).to_bits()
}

/// Relies on `f64` division: IEEE-754 binary64 arithmetic.
#[verifier::external_body]
pub(crate) fn fdiv(a: u64, b: u64) -> (r: u64)
    ensures
        r == div_bits(a, b),
{
    let x = libm::copysign(bytemuck::cast(a), bytemuck::cast(a));
    let y = libm::copysign(bytemuck::cast(b), bytemuck::cast(b));
    (x / y).to_bits()
}

/// Relies on `libm::sqrt`: the correctly rounded IEEE-754 square root.
#[verifier::external_body]
pub(crate) fn fsqrt(a: u64) -> (r: u64)
    ensures
        r == sqrt_bits(a),
{
    libm::sqrt(bytemuck::cast(a)).to_bits()
}

/// Relies on `libm::exp`: a pure-Rust routine, a function of its argument
/// bits alone.
#[verifier::external_body]
pub(crate) fn fexp(a: u64) -> (r: u64)
    ensures
        r == exp_bits(a),
{
    libm::exp(bytemuck::cast(a)).to_bits()
}

/// Relies on `libm::log`: a pure-Rust routine, a function of its argument
/// bits alone.
#[verifier::external_body]
pub(crate) fn fln(a: u64) -> (r: u64)
    ensures
        r == ln_bits(a),
{
    libm::log(bytemuck::cast(a)).to_bits()
}

/// Relies on `libm::pow`: a pure-Rust routine, a function of its argument
/// bits alone.
#[verifier::external_body]
pub(crate) fn fpow(a: u64, b: u64) -> (r: u64)
    ensures
        r == pow_bits(a, b),
{
    libm::pow(bytemuck::cast(a), bytemuck::cast(b)).to_bits()
}

/// Relies on `f64`'s `<`: the IEEE-754 ordered comparison.
#[verifier::external_body]
pub(crate) fn flt(a: u64, b: u64) -> (r: bool)
    ensures
        r == lt_bits(a, b),
{
    let x = libm::copysign(bytemuck::cast(a), bytemuck::cast(a));
    let y = libm::copysign(bytemuck::cast(b), bytemuck::cast(b));
    x < y
}

/// Relies on `f64`'s `==`: IEEE-754 equality (distinct from bit equality:
/// the two zeros compare equal, and a NaN compares equal to nothing).
#[verifier::external_body]
pub(crate) fn feq(a: u64, b: u64) -> (r: bool)
    ensures
        r == eq_bits(a, b),
{
    let x = libm::copysign(bytemuck::cast(a), bytemuck::cast(a));
    let y = libm::copysign(bytemuck::cast(b), bytemuck::cast(b));
    x == y
}

/// The bit pattern of the negation of the double with pattern `a`: negation
/// flips the sign bit and touches nothing else.
pub open spec fn neg_bits(a: u64) -> u64 {
    if a >= F64_SIGN {
        (a - F64_SIGN) as u64
    } else {
        (a + F64_SIGN) as u64
    }
}

/// Flips the sign bit, which is IEEE-754 negation.
pub(crate) fn fneg(a: u64) -> (r: u64)
    ensures
        r == neg_bits(a),
{
    if a >= F64_SIGN {
        a - F64_SIGN
    } else {
        a + F64_SIGN
    }
}

/// The bit pattern of the absolute value of the double with pattern `a`:
/// the sign bit cleared, nothing else touched.
pub open spec fn abs_bits(a: u64) -> u64 {
    if a >= F64_SIGN {
        (a - F64_SIGN) as u64
    } else {
        a
    }
}

/// Clears the sign bit, which is the IEEE-754 absolute value.
pub(crate) fn fabs(a: u64) -> (r: u64)
    ensures
        r == abs_bits(a),
{
    if a >= F64_SIGN {
        a - F64_SIGN
    } else {
        a
    }
}

/// Whether the pattern `a` encodes one of the two infinities.
pub open spec fn is_inf_bits(a: u64) -> bool {
    abs_bits(a) == F64_INF
}

/// Infinity test on the bit pattern: the magnitude bits are exactly those
/// of positive infinity.
pub(crate) fn f_is_infinite(a: u64) -> (r: bool)
    ensures
        r == is_inf_bits(a),
{
    fabs(a) == F64_INF
}

/// Bit pattern of `2^52`, the weight of the exponent field and the implicit
/// leading mantissa bit of a normal double.
pub const F64_POW52: u64 = 0x10_0000_0000_0000;

/// Integers below `2^53` are exactly representable as doubles; lengths of
/// in-memory vectors always are.
pub const F64_EXACT_INT_BOUND: u64 = 0x20_0000_0000_0000;

/// The position of the highest set bit of `n`, for `n >= 1`.
pub open spec fn floor_log2(n: nat) -> nat
    decreases n,
{
    if n < 2 {
        0
    } else {
        1 + floor_log2(n / 2)
    }
}

/// For `n >= 1`, `2^floor_log2(n) <= n < 2^(floor_log2(n) + 1)`.
pub proof fn lemma_floor_log2_bounds(n: nat)
    requires
        n >= 1,
    ensures
        pow2(floor_log2(n)) <= n < 2 * pow2(floor_log2(n)),
    decreases n,
{
    if n < 2 {
        reveal(pow2);
        reveal(vstd::arithmetic::power::pow);
    } else {
        lemma_floor_log2_bounds(n / 2);
        lemma_pow2_unfold((floor_log2(n / 2) + 1) as nat);
    }
}

/// The IEEE-754 double encoding of the integer `n`, as a bit pattern: a
/// biased exponent of `1023 + floor_log2(n)` and the bits of `n` below its
/// leading one, shifted up to the top of the 52-bit mantissa field.  The
/// formula is meaningful for `n < 2^53`, where the encoding is exact.
pub open spec fn f64_bits_of_int(n: nat) -> u64 {
    if n == 0 {
        F64_ZERO
    } else {
        let e = floor_log2(n);
        (((1023 + e) * pow2(52) + n * pow2((52 - e) as nat)) - pow2(52)) as u64
    }
}

/// Encodes an integer below `2^53` as the IEEE-754 double that represents
/// it exactly.  Pure integer arithmetic, verified against the encoding
/// formula; no float unit is involved.
pub fn f64_of_usize(n: usize) -> (r: u64)
    requires
        n < F64_EXACT_INT_BOUND,
    ensures
        r == f64_bits_of_int(n as nat),
{
    if n == 0 {
        return F64_ZERO;
    }
    let nn: u64 = n as u64;
    let mut m: u64 = nn;
    let mut e: u64 = 0;
    proof {
        lemma2_to64();
    }
    while m >= 2
        invariant
            1 <= m,
            e <= 52,
            m == nn as nat / pow2(e as nat),
            pow2(e as nat) <= nn,
            floor_log2(nn as nat) == e + floor_log2(m as nat),
            nn < F64_EXACT_INT_BOUND,
            1 <= nn,
        decreases m,
    {
        proof {
            lemma_pow2_pos(e as nat);
            lemma_pow2_unfold((e + 1) as nat);
            // m >= 2 means a further power of two still fits under nn
            lemma_fundamental_div_mod(nn as int, pow2(e as nat) as int);
            lemma_mul_inequality(2, nn as int / pow2(e as nat) as int, pow2(e as nat) as int);
            assert(pow2((e + 1) as nat) <= nn);
            lemma_div_denominator(nn as int, pow2(e as nat) as int, 2);
            if e + 1 > 52 {
                lemma2_to64_rest();
                if e + 1 > 53 {
                    lemma_pow2_strictly_increases(53, (e + 1) as nat);
                }
                assert(false);
            }
        }
        m = m / 2;
        e = e + 1;
    }
    proof {
        assert(e == floor_log2(nn as nat));
        lemma_floor_log2_bounds(nn as nat);
        lemma2_to64();
        lemma2_to64_rest();
        assert(pow2(e as nat) <= nn < F64_EXACT_INT_BOUND);
    }
    let shift: u64 = 52 - e;
    let mut p: u64 = 1;
    let mut k: u64 = 0;
    while k < shift
        invariant
            k <= shift <= 52,
            p == pow2(k as nat),
        decreases shift - k,
    {
        proof {
            lemma_pow2_unfold((k + 1) as nat);
            lemma_pow2_strictly_increases(k as nat, 52);
            lemma2_to64();
            lemma2_to64_rest();
        }
        p = p * 2;
        k = k + 1;
    }
    proof {
        lemma2_to64();
        // n * 2^(52 - e) < 2^(e + 1) * 2^(52 - e) = 2^53
        lemma_floor_log2_bounds(nn as nat);
        lemma_pow2_adds((e + 1) as nat, (52 - e) as nat);
        lemma_pow2_unfold((e + 1) as nat);
        lemma_mul_strict_inequality(nn as int, 2 * pow2(e as nat) as int, pow2((52 - e) as nat) as int);
        lemma_mul_is_associative(2, pow2(e as nat) as int, pow2((52 - e) as nat) as int);
        lemma_pow2_adds(e as nat, (52 - e) as nat);
        assert(nn * pow2((52 - e) as nat) < 2 * (pow2(e as nat) * pow2((52 - e) as nat)));
        assert(pow2(e as nat) * pow2((52 - e) as nat) == pow2(52));
        // n * 2^(52 - e) >= 2^e * 2^(52 - e) = 2^52
        lemma_mul_inequality(pow2(e as nat) as int, nn as int, pow2((52 - e) as nat) as int);
        // the exponent field stays well below 2^63
        lemma_mul_inequality((1023 + e) as int, 1075, pow2(52) as int);
    }
    let frac: u64 = nn * p;
    let bits: u64 = (1023 + e) * F64_POW52 + frac - F64_POW52;
    bits
}

} // verus!
