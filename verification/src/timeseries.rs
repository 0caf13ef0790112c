//! Autocovariance and autocorrelation of equally spaced time-series data,
//! mirroring the usual biased (divide-by-`n`) estimators.

use vstd::prelude::*;
use crate::scalar::{
    div_bits, mul_bits, sub_bits, f64_bits_of_int, f64_of_usize, fadd, fdiv, fmul, fsub,
    F64_EXACT_INT_BOUND, F64_ONE, F64_ZERO,
};
use crate::vecops::{mean, mean_bits, sum_bits};

verus! {

/// The lag-`k` products of centered values: entry `j` is
/// `(ts[k+j] - m)·(ts[j] - m)`; empty when the lag exceeds the length.
pub open spec fn acov_terms(ts: Seq<u64>, m: u64, k: int) -> Seq<u64> {
    let cnt = if k <= ts.len() {
        ts.len() - k
    } else {
        0
    };
    Seq::new(cnt as nat, |j: int| mul_bits(sub_bits(ts[k + j], m), sub_bits(ts[j], m)))
}

/// The lag-`k` autocovariance: `1/n` times the left-to-right sum of the
/// centered products.
pub open spec fn acovf_bits(ts: Seq<u64>, k: int) -> u64 {
    let m = mean_bits(ts);
    let terms = acov_terms(ts, m, k);
    mul_bits(
        div_bits(F64_ONE, f64_bits_of_int(ts.len())),
        sum_bits(terms, terms.len() as int),
    )
}

/// The lag-`k` autocovariance of the series, assuming equally spaced
/// points.
#[verifier::loop_isolation(false)]
pub fn acovf(ts: &Vec<u64>, k: usize) -> (r: u64)
    requires
        ts@.len() < F64_EXACT_INT_BOUND,
    ensures
        r == acovf_bits(ts@, k as int),
{
    let n = ts.len();
    let m = mean(ts);
    let ghost terms = acov_terms(ts@, m, k as int);
    let mut s: u64 = F64_ZERO;
    if k <= n {
        for i in k..n
            invariant
                m == mean_bits(ts@),
                s == sum_bits(terms, i - k),
        {
            s = fadd(s, fmul(fsub(ts[i], m), fsub(ts[i - k], m)));
        }
    }
    fmul(fdiv(F64_ONE, f64_of_usize(n)), s)
}

/// The squared centered values of the series.
pub open spec fn sq_terms(ts: Seq<u64>, m: u64) -> Seq<u64> {
    Seq::new(ts.len(), |i: int| mul_bits(sub_bits(ts[i], m), sub_bits(ts[i], m)))
}

/// The lag-`k` autocorrelation: the lag-`k` numerator `1/n · sum` over the
/// variance `sum / n`, the two scalings written exactly as computed.
pub open spec fn acf_bits(ts: Seq<u64>, k: int) -> u64 {
    let m = mean_bits(ts);
    let terms = acov_terms(ts, m, k);
    let numerator = mul_bits(
        div_bits(F64_ONE, f64_bits_of_int(ts.len())),
        sum_bits(terms, terms.len() as int),
    );
    let denominator = div_bits(
        sum_bits(sq_terms(ts, m), ts.len() as int),
        f64_bits_of_int(ts.len()),
    );
    div_bits(numerator, denominator)
}

/// The lag-`k` autocorrelation of the series, assuming equally spaced
/// points.
#[verifier::loop_isolation(false)]
pub fn acf(ts: &Vec<u64>, k: usize) -> (r: u64)
    requires
        ts@.len() < F64_EXACT_INT_BOUND,
    ensures
        r == acf_bits(ts@, k as int),
{
    let n = ts.len();
    let m = mean(ts);
    let ghost terms = acov_terms(ts@, m, k as int);
    let mut s: u64 = F64_ZERO;
    if k <= n {
        for i in k..n
            invariant
                m == mean_bits(ts@),
                s == sum_bits(terms, i - k),
        {
            s = fadd(s, fmul(fsub(ts[i], m), fsub(ts[i - k], m)));
        }
    }
    let numerator = fmul(fdiv(F64_ONE, f64_of_usize(n)), s);
    let mut sq: u64 = F64_ZERO;
    for i in 0..n
        invariant
            m == mean_bits(ts@),
            sq == sum_bits(sq_terms(ts@, m), i as int),
    {
        sq = fadd(sq, fmul(fsub(ts[i], m), fsub(ts[i], m)));
    }
    let denominator = fdiv(sq, f64_of_usize(n));
    fdiv(numerator, denominator)
}

} // verus!
