//! The exponential-family abstraction: a closed set of distribution tags,
//! each with its inverse link, the link's derivative, its variance
//! function, and its deviance.  All functions are elementwise over vectors
//! of double bit patterns, with exact contracts.

use vstd::prelude::*;
use crate::scalar::{
    add_bits, div_bits, exp_bits, ln_bits, mul_bits, neg_bits, sub_bits, eq_bits, fadd, fdiv,
    fexp, fln, fmul, fneg, fsub, feq, F64_ONE, F64_TWO, F64_ZERO,
};
use crate::vecops::{sum_bits};

verus! {

/// Bit pattern of minus two, the factor in front of the Bernoulli
/// log-likelihood sum.
pub const F64_NEG_TWO: u64 = 0xC000_0000_0000_0000;

/// The supported distribution families: a fixed, closed set of tags.
#[derive(Clone, Copy, Debug, PartialEq, Eq, Structural)]
pub enum ExponentialFamily {
    /// Binary responses; logistic link.
    Bernoulli,
    /// Continuous responses; identity link, constant variance.
    Gaussian,
    /// Count responses; logarithmic link.
    Poisson,
}

/// The inverse link at one linear-predictor value: the logistic sigmoid
/// `1 / (1 + exp(-nu))` for Bernoulli, the identity for Gaussian, and
/// `exp(nu)` for Poisson.
pub open spec fn inv_link_1(fam: ExponentialFamily, nu: u64) -> u64 {
    match fam {
        ExponentialFamily::Bernoulli => div_bits(
            F64_ONE,
            add_bits(F64_ONE, exp_bits(neg_bits(nu))),
        ),
        ExponentialFamily::Gaussian => nu,
        ExponentialFamily::Poisson => exp_bits(nu),
    }
}

/// The derivative of the inverse link at one point, written over the
/// already-computed mean: `mu·(1 - mu)` for Bernoulli, one for Gaussian,
/// and `mu` itself for Poisson.
pub open spec fn d_inv_link_1(fam: ExponentialFamily, mu: u64) -> u64 {
    match fam {
        ExponentialFamily::Bernoulli => mul_bits(mu, sub_bits(F64_ONE, mu)),
        ExponentialFamily::Gaussian => F64_ONE,
        ExponentialFamily::Poisson => mu,
    }
}

/// The variance function at one mean value: `mu·(1 - mu)` for Bernoulli,
/// constant one for Gaussian, and `mu` for Poisson.
pub open spec fn variance_1(fam: ExponentialFamily, mu: u64) -> u64 {
    match fam {
        ExponentialFamily::Bernoulli => mul_bits(mu, sub_bits(F64_ONE, mu)),
        ExponentialFamily::Gaussian => F64_ONE,
        ExponentialFamily::Poisson => mu,
    }
}

/// The elementwise inverse link over a vector of linear predictors.
pub open spec fn inv_link_bits(fam: ExponentialFamily, nu: Seq<u64>) -> Seq<u64> {
    Seq::new(nu.len(), |i: int| inv_link_1(fam, nu[i]))
}

/// The elementwise derivative of the inverse link.
pub open spec fn d_inv_link_bits(fam: ExponentialFamily, mu: Seq<u64>) -> Seq<u64> {
    Seq::new(mu.len(), |i: int| d_inv_link_1(fam, mu[i]))
}

/// The elementwise variance function.
pub open spec fn variance_bits(fam: ExponentialFamily, mu: Seq<u64>) -> Seq<u64> {
    Seq::new(mu.len(), |i: int| variance_1(fam, mu[i]))
}

/// One observation's contribution to the deviance sum.  Bernoulli: the
/// log-likelihood term `y·ln(mu) + (1-y)·ln(1-mu)`.  Gaussian: the squared
/// residual.  Poisson: `y·ln(y/mu) - (y - mu)`, with the `y·ln(y/mu)`
/// term dropped when `y` compares equal to zero.
pub open spec fn dev_term_1(fam: ExponentialFamily, y: u64, mu: u64) -> u64 {
    match fam {
        ExponentialFamily::Bernoulli => add_bits(
            mul_bits(y, ln_bits(mu)),
            mul_bits(sub_bits(F64_ONE, y), ln_bits(sub_bits(F64_ONE, mu))),
        ),
        ExponentialFamily::Gaussian => mul_bits(sub_bits(y, mu), sub_bits(y, mu)),
        ExponentialFamily::Poisson => if eq_bits(y, F64_ZERO) {
            sub_bits(F64_ZERO, sub_bits(y, mu))
        } else {
            sub_bits(mul_bits(y, ln_bits(div_bits(y, mu))), sub_bits(y, mu))
        },
    }
}

/// The per-observation deviance terms, elementwise.
pub open spec fn dev_terms_bits(fam: ExponentialFamily, y: Seq<u64>, mu: Seq<u64>) -> Seq<u64> {
    Seq::new(y.len(), |i: int| dev_term_1(fam, y[i], mu[i]))
}

/// The deviance: the left-to-right sum of the per-observation terms,
/// scaled by `-2` for Bernoulli, by nothing for Gaussian, and by `2` for
/// Poisson.
pub open spec fn deviance_bits(fam: ExponentialFamily, y: Seq<u64>, mu: Seq<u64>) -> u64 {
    let s = sum_bits(dev_terms_bits(fam, y, mu), y.len() as int);
    match fam {
        ExponentialFamily::Bernoulli => mul_bits(F64_NEG_TWO, s),
        ExponentialFamily::Gaussian => s,
        ExponentialFamily::Poisson => mul_bits(F64_TWO, s),
    }
}

/// The ridge term: the left-to-right sum of the squares of every
/// coefficient but the intercept.
pub open spec fn sumsq_tail_bits(coef: Seq<u64>) -> u64 {
    if coef.len() == 0 {
        F64_ZERO
    } else {
        sum_bits(
            Seq::new((coef.len() - 1) as nat, |i: int| mul_bits(coef[i + 1], coef[i + 1])),
            coef.len() - 1,
        )
    }
}

/// The penalized deviance: the deviance plus `alpha` times the ridge term.
pub open spec fn penalized_deviance_bits(
    fam: ExponentialFamily,
    y: Seq<u64>,
    mu: Seq<u64>,
    alpha: u64,
    coef: Seq<u64>,
) -> u64 {
    add_bits(deviance_bits(fam, y, mu), mul_bits(alpha, sumsq_tail_bits(coef)))
}

impl ExponentialFamily {
    /// Maps a vector of linear predictors to the mean-response scale.
    pub fn inv_link(&self, nu: &Vec<u64>) -> (r: Vec<u64>)
        ensures
            r@ == inv_link_bits(*self, nu@),
    {
        let n = nu.len();
        let mut r: Vec<u64> = Vec::new();
        for i in 0..n
            invariant
                nu@.len() == n,
                r@.len() == i,
                forall|k: int| 0 <= k < i ==> r@[k] == inv_link_1(*self, nu@[k]),
        {
            let v = match self {
                ExponentialFamily::Bernoulli => fdiv(
                    F64_ONE,
                    fadd(F64_ONE, fexp(fneg(nu[i]))),
                ),
                ExponentialFamily::Gaussian => nu[i],
                ExponentialFamily::Poisson => fexp(nu[i]),
            };
            r.push(v);
        }
        proof {
            assert(r@ =~= inv_link_bits(*self, nu@));
        }
        r
    }

    /// The elementwise derivative of the inverse link at the given linear
    /// predictor / mean pair.  The derivative is a function of the mean
    /// alone for every supported family; the linear predictor is accepted
    /// to mirror the mathematical signature.
    pub fn d_inv_link(&self, nu: &Vec<u64>, mu: &Vec<u64>) -> (r: Vec<u64>)
        requires
            nu@.len() == mu@.len(),
        ensures
            r@ == d_inv_link_bits(*self, mu@),
    {
        let n = mu.len();
        let mut r: Vec<u64> = Vec::new();
        for i in 0..n
            invariant
                mu@.len() == n,
                r@.len() == i,
                forall|k: int| 0 <= k < i ==> r@[k] == d_inv_link_1(*self, mu@[k]),
        {
            let v = match self {
                ExponentialFamily::Bernoulli => fmul(mu[i], fsub(F64_ONE, mu[i])),
                ExponentialFamily::Gaussian => F64_ONE,
                ExponentialFamily::Poisson => mu[i],
            };
            r.push(v);
        }
        proof {
            assert(r@ =~= d_inv_link_bits(*self, mu@));
        }
        r
    }

    /// Maps means to the family's variance function.
    pub fn variance(&self, mu: &Vec<u64>) -> (r: Vec<u64>)
        ensures
            r@ == variance_bits(*self, mu@),
    {
        let n = mu.len();
        let mut r: Vec<u64> = Vec::new();
        for i in 0..n
            invariant
                mu@.len() == n,
                r@.len() == i,
                forall|k: int| 0 <= k < i ==> r@[k] == variance_1(*self, mu@[k]),
        {
            let v = match self {
                ExponentialFamily::Bernoulli => fmul(mu[i], fsub(F64_ONE, mu[i])),
                ExponentialFamily::Gaussian => F64_ONE,
                ExponentialFamily::Poisson => mu[i],
            };
            r.push(v);
        }
        proof {
            assert(r@ =~= variance_bits(*self, mu@));
        }
        r
    }

    /// Twice the log-likelihood deficit between the saturated and the
    /// fitted model, summed left to right over the observations.
    pub fn deviance(&self, y: &Vec<u64>, mu: &Vec<u64>) -> (r: u64)
        requires
            y@.len() == mu@.len(),
        ensures
            r == deviance_bits(*self, y@, mu@),
    {
        let n = y.len();
        let mut s: u64 = F64_ZERO;
        for i in 0..n
            invariant
                y@.len() == n,
                mu@.len() == n,
                s == sum_bits(dev_terms_bits(*self, y@, mu@), i as int),
        {
            let term = match self {
                ExponentialFamily::Bernoulli => fadd(
                    fmul(y[i], fln(mu[i])),
                    fmul(fsub(F64_ONE, y[i]), fln(fsub(F64_ONE, mu[i]))),
                ),
                ExponentialFamily::Gaussian => fmul(fsub(y[i], mu[i]), fsub(y[i], mu[i])),
                ExponentialFamily::Poisson => if feq(y[i], F64_ZERO) {
                    fsub(F64_ZERO, fsub(y[i], mu[i]))
                } else {
                    fsub(fmul(y[i], fln(fdiv(y[i], mu[i]))), fsub(y[i], mu[i]))
                },
            };
            proof {
                assert(term == dev_terms_bits(*self, y@, mu@)[i as int]);
            }
            s = fadd(s, term);
        }
        match self {
            ExponentialFamily::Bernoulli => fmul(F64_NEG_TWO, s),
            ExponentialFamily::Gaussian => s,
            ExponentialFamily::Poisson => fmul(F64_TWO, s),
        }
    }

    /// The deviance plus the ridge penalty `alpha · sum(coef[1:]²)`; the
    /// intercept coefficient is never penalized.
    pub fn penalized_deviance(&self, y: &Vec<u64>, mu: &Vec<u64>, alpha: u64, coef: &Vec<u64>) -> (r:
        u64)
        requires
            y@.len() == mu@.len(),
        ensures
            r == penalized_deviance_bits(*self, y@, mu@, alpha, coef@),
    {
        let dev = self.deviance(y, mu);
        let p = coef.len();
        let mut s: u64 = F64_ZERO;
        if p >= 1 {
            for i in 0..(p - 1)
                invariant
                    coef@.len() == p,
                    p >= 1,
                    s == sum_bits(
                        Seq::new((p - 1) as nat, |k: int| mul_bits(coef@[k + 1], coef@[k + 1])),
                        i as int,
                    ),
            {
                s = fadd(s, fmul(coef[i + 1], coef[i + 1]));
            }
        }
        proof {
            assert(s == sumsq_tail_bits(coef@));
        }
        fadd(dev, fmul(alpha, s))
    }
}

} // verus!
