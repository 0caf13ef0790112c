//! The generalized linear model and its IRLS (iteratively reweighted
//! least squares) fitting engine.
//!
//! A fit repeatedly maps the linear predictor through the family's inverse
//! link, builds working residuals and weights, forms the weighted
//! normal-equations matrix, and solves for the coefficient update with the
//! Cholesky solver, until the penalized deviance settles or the iteration
//! cap is reached.  The whole loop is mirrored by spec-level folds, so the
//! fitted coefficients, deviance and information matrix are pinned bit for
//! bit as functions of the inputs.

use vstd::prelude::*;
use crate::MathError;
use crate::scalar::{
    add_bits, div_bits, lt_bits, mul_bits, sub_bits, abs_bits, is_inf_bits, fadd, fdiv, fmul,
    fsub, flt, fabs, f_is_infinite, F64_EXACT_INT_BOUND, F64_INF, F64_ONE, F64_ZERO,
};
use crate::vecops::{
    mean, mean_bits, vadd, vadd_bits, vdiv, vdiv_bits, vmul, vmul_bits, vsub, vsub_bits,
};
use crate::matrix::{
    is_design, is_design_bits, is_matrix, matmul, mm_bits, mm_shape_ok, sym_ok, lemma_square_side,
};
use crate::cholesky::{solve, solve_bits, zero_seq};
use crate::family::{
    ExponentialFamily, d_inv_link_bits, deviance_bits, inv_link_bits, penalized_deviance_bits,
    variance_bits,
};
use vstd::arithmetic::div_mod::{
    lemma_fundamental_div_mod, lemma_fundamental_div_mod_converse, lemma_multiply_divide_lt,
};
use vstd::arithmetic::mul::lemma_mul_basics;

verus! {

/// Bit pattern of the default convergence tolerance, `1e-5`.
pub const F64_TOL_DEFAULT: u64 = 0x3EE4_F8B5_88E3_68F1;

/// A sequence of ones: the default observation weights.
pub open spec fn ones_seq(n: int) -> Seq<u64> {
    Seq::new(n as nat, |_i: int| F64_ONE)
}

/// The view of an optional vector.
pub open spec fn opt_view(o: Option<Vec<u64>>) -> Option<Seq<u64>> {
    match o {
        Some(v) => Some(v@),
        None => None,
    }
}

/// The weights a fit works with: the caller's, or all ones.
pub open spec fn eff_weights(w: Option<Seq<u64>>, n: int) -> Seq<u64> {
    match w {
        Some(s) => s,
        None => ones_seq(n),
    }
}

/// The linear predictor: `X·coef`, plus the offsets when present.
pub open spec fn glm_nu(x: Seq<u64>, coef: Seq<u64>, off: Option<Seq<u64>>, n: int, p: int) -> Seq<
    u64,
> {
    let nu0 = mm_bits(x, coef, n, p, false, false);
    match off {
        Some(o) => vadd_bits(nu0, o),
        None => nu0,
    }
}

/// The mean response at a coefficient vector.
pub open spec fn glm_mu(
    fam: ExponentialFamily,
    x: Seq<u64>,
    coef: Seq<u64>,
    off: Option<Seq<u64>>,
    n: int,
    p: int,
) -> Seq<u64> {
    inv_link_bits(fam, glm_nu(x, coef, off, n, p))
}

/// The working residuals `weights · (y - mu) · (dmu / var)`, elementwise.
pub open spec fn wr_bits(
    w: Seq<u64>,
    y: Seq<u64>,
    mu: Seq<u64>,
    dmu: Seq<u64>,
    var: Seq<u64>,
) -> Seq<u64> {
    vmul_bits(vmul_bits(w, vsub_bits(y, mu)), vdiv_bits(dmu, var))
}

/// The working weights `weights · dmu² / var`, elementwise.
pub open spec fn ww_bits(w: Seq<u64>, dmu: Seq<u64>, var: Seq<u64>) -> Seq<u64> {
    vdiv_bits(vmul_bits(w, vmul_bits(dmu, dmu)), var)
}

/// Coordinate `ip` of the gradient after folding the first `k`
/// observations: starting from zero, each observation subtracts
/// `x[obs, ip] · wr[obs]`.
pub open spec fn dbeta_cell(x: Seq<u64>, wr: Seq<u64>, p: int, ip: int, k: int) -> u64
    decreases k,
{
    if k <= 0 {
        F64_ZERO
    } else {
        sub_bits(dbeta_cell(x, wr, p, ip, k - 1), mul_bits(x[(k - 1) * p + ip], wr[k - 1]))
    }
}

/// The gradient `-Xᵀ·wr`, coordinate by coordinate.
pub open spec fn dbeta_bits(x: Seq<u64>, wr: Seq<u64>, n: int, p: int) -> Seq<u64> {
    Seq::new(p as nat, |ip: int| dbeta_cell(x, wr, p, ip, n))
}

/// Each row of `X` scaled by its observation's working weight.
pub open spec fn wx_bits(x: Seq<u64>, ww: Seq<u64>, p: int) -> Seq<u64> {
    Seq::new(x.len(), |q: int| mul_bits(x[q], ww[q / p]))
}

/// The approximate Hessian `Xᵀ·diag(ww)·X`, formed as `Xᵀ` times the
/// row-scaled copy of `X`.
pub open spec fn hess_bits(x: Seq<u64>, ww: Seq<u64>, n: int, p: int) -> Seq<u64> {
    mm_bits(x, wx_bits(x, ww, p), n, n, true, false)
}

/// The Hessian at a coefficient vector, with working weights derived from
/// the mean there.
pub open spec fn glm_hess(
    fam: ExponentialFamily,
    x: Seq<u64>,
    w: Seq<u64>,
    coef: Seq<u64>,
    off: Option<Seq<u64>>,
    n: int,
    p: int,
) -> Seq<u64> {
    let mu = glm_mu(fam, x, coef, off, n, p);
    hess_bits(x, ww_bits(w, d_inv_link_bits(fam, mu), variance_bits(fam, mu)), n, p)
}

/// The gradient with the ridge penalty applied: each non-intercept
/// coordinate has its coefficient added.
pub open spec fn pen_dbeta_bits(d: Seq<u64>, coef: Seq<u64>) -> Seq<u64> {
    Seq::new(
        d.len(),
        |i: int|
            if i == 0 {
                d[0]
            } else {
                add_bits(d[i], coef[i])
            },
    )
}

/// The Hessian with the ridge penalty applied: `alpha` added to every
/// diagonal entry, the intercept's included.
pub open spec fn pen_ddbeta_bits(dd: Seq<u64>, alpha: u64, p: int) -> Seq<u64> {
    Seq::new(
        dd.len(),
        |q: int|
            if q / p == q % p {
                add_bits(dd[q], alpha)
            } else {
                dd[q]
            },
    )
}

/// The convergence test on two successive penalized deviances: never
/// converged while the previous value is infinite; otherwise the relative
/// change `|loss - previous| / previous` is below the tolerance.
pub open spec fn converged_bits(loss: u64, prev: u64, tol: u64) -> bool {
    !is_inf_bits(prev) && lt_bits(div_bits(abs_bits(sub_bits(loss, prev)), prev), tol)
}

/// The fitting seed: all coordinates zero but the intercept, which takes
/// the plain mean of the response.
pub open spec fn init_coef(y: Seq<u64>, p: int) -> Seq<u64> {
    zero_seq(p).update(0, mean_bits(y))
}

/// One IRLS pass from a coefficient vector: mean, working residuals and
/// weights, gradient and Hessian, optional ridge penalty, then the
/// Cholesky solve and the coefficient update.  Yields the new coefficients
/// and the penalized deviance evaluated at the old mean and the new
/// coefficients, or no coefficients when the solver refuses the working
/// matrix as visibly asymmetric.
pub open spec fn irls_step(
    fam: ExponentialFamily,
    x: Seq<u64>,
    y: Seq<u64>,
    w: Seq<u64>,
    off: Option<Seq<u64>>,
    alpha: u64,
    n: int,
    p: int,
    coef: Seq<u64>,
) -> (Option<Seq<u64>>, u64) {
    let mu = glm_mu(fam, x, coef, off, n, p);
    let dmu = d_inv_link_bits(fam, mu);
    let var = variance_bits(fam, mu);
    let dbeta0 = dbeta_bits(x, wr_bits(w, y, mu, dmu, var), n, p);
    let dd0 = hess_bits(x, ww_bits(w, dmu, var), n, p);
    let db = if lt_bits(F64_ZERO, alpha) {
        pen_dbeta_bits(dbeta0, coef)
    } else {
        dbeta0
    };
    let dd = if lt_bits(F64_ZERO, alpha) {
        pen_ddbeta_bits(dd0, alpha, p)
    } else {
        dd0
    };
    if sym_ok(dd, p) {
        let newcoef = vsub_bits(coef, solve_bits(dd, db));
        (Some(newcoef), penalized_deviance_bits(fam, y, mu, alpha, newcoef))
    } else {
        (None, F64_ZERO)
    }
}

/// The IRLS loop from a state: runs one pass, stops when the pass count is
/// exhausted or the penalized deviance has converged, and otherwise
/// recurses on the new state.  Yields the final coefficients together with
/// the coefficients the last pass started from (whose mean the stored
/// deviance and information matrix are evaluated at), or nothing when some
/// pass's solve was refused.
pub open spec fn irls_loop(
    fam: ExponentialFamily,
    x: Seq<u64>,
    y: Seq<u64>,
    w: Seq<u64>,
    off: Option<Seq<u64>>,
    alpha: u64,
    tol: u64,
    n: int,
    p: int,
    coef: Seq<u64>,
    d_prev: u64,
    left: nat,
) -> Option<(Seq<u64>, Seq<u64>)>
    decreases left,
{
    let (stepped, d) = irls_step(fam, x, y, w, off, alpha, n, p, coef);
    match stepped {
        None => None,
        Some(newcoef) => if left <= 1 || converged_bits(d, d_prev, tol) {
            Some((newcoef, coef))
        } else {
            irls_loop(fam, x, y, w, off, alpha, tol, n, p, newcoef, d, (left - 1) as nat)
        },
    }
}

/// The whole fit as a spec value: seed the coefficients, then run the
/// loop for at most `max_iter` passes (at least one pass always runs).
pub open spec fn fit_spec(
    fam: ExponentialFamily,
    x: Seq<u64>,
    y: Seq<u64>,
    w: Option<Seq<u64>>,
    off: Option<Seq<u64>>,
    alpha: u64,
    tol: u64,
    max_iter: int,
) -> Option<(Seq<u64>, Seq<u64>)> {
    let n = y.len() as int;
    let p = x.len() as int / n;
    let rounds = if max_iter <= 0 {
        1
    } else {
        max_iter
    };
    irls_loop(
        fam,
        x,
        y,
        eff_weights(w, n),
        off,
        alpha,
        tol,
        n,
        p,
        init_coef(y, p),
        F64_INF,
        rounds as nat,
    )
}

/// A generalized linear model: a family tag, the ridge penalty strength
/// and convergence tolerance, optional per-observation weights and
/// offsets, and, after a fit, the coefficients, residual deviance and
/// observed information matrix.
#[derive(Clone, Debug)]
pub struct GLM {
    /// The exponential family the responses are modeled by.
    pub family: ExponentialFamily,
    /// Ridge penalty strength; zero disables the penalty.
    pub alpha: u64,
    /// Relative tolerance on the penalized deviance that ends the loop.
    pub tolerance: u64,
    /// Per-observation weights; all ones when absent.
    pub weights: Option<Vec<u64>>,
    /// Per-observation offsets added to the linear predictor; absent means
    /// zero.
    pub offsets: Option<Vec<u64>>,
    /// Fitted coefficients, intercept first.
    pub coef: Option<Vec<u64>>,
    /// Residual deviance of the fit, from the unpenalized formula.
    pub deviance: Option<u64>,
    /// The observed information matrix: the final unpenalized weighted
    /// cross-product, flattened `p x p`.
    pub information_matrix: Option<Vec<u64>>,
}

impl GLM {
    /// A fresh model for the given family: no penalty, tolerance `1e-5`,
    /// no weights or offsets, nothing fitted yet.
    pub fn new(family: ExponentialFamily) -> (r: GLM)
        ensures
            r.family == family,
            r.alpha == F64_ZERO,
            r.tolerance == F64_TOL_DEFAULT,
            r.weights is None,
            r.offsets is None,
            r.coef is None,
            r.deviance is None,
            r.information_matrix is None,
    {
        GLM {
            family,
            alpha: F64_ZERO,
            tolerance: F64_TOL_DEFAULT,
            weights: None,
            offsets: None,
            coef: None,
            deviance: None,
            information_matrix: None,
        }
    }

    /// Sets the ridge penalty strength.
    pub fn set_penalty(&mut self, alpha: u64)
        ensures
            *final(self) == (GLM { alpha, ..*old(self) }),
    {
        self.alpha = alpha;
    }

    /// Sets the convergence tolerance.
    pub fn set_tolerance(&mut self, tolerance: u64)
        ensures
            *final(self) == (GLM { tolerance, ..*old(self) }),
    {
        self.tolerance = tolerance;
    }

    /// Sets the per-observation weights.
    pub fn set_weights(&mut self, weights: &Vec<u64>)
        ensures
            final(self).family == old(self).family,
            final(self).alpha == old(self).alpha,
            final(self).tolerance == old(self).tolerance,
            final(self).offsets == old(self).offsets,
            final(self).coef == old(self).coef,
            final(self).deviance == old(self).deviance,
            final(self).information_matrix == old(self).information_matrix,
            opt_view(final(self).weights) == Some(weights@),
    {
        let w = clone_vec(weights);
        self.weights = Some(w);
    }

    /// Sets the per-observation offsets.
    pub fn set_offset(&mut self, offset: &Vec<u64>)
        ensures
            final(self).family == old(self).family,
            final(self).alpha == old(self).alpha,
            final(self).tolerance == old(self).tolerance,
            final(self).weights == old(self).weights,
            final(self).coef == old(self).coef,
            final(self).deviance == old(self).deviance,
            final(self).information_matrix == old(self).information_matrix,
            opt_view(final(self).offsets) == Some(offset@),
    {
        let o = clone_vec(offset);
        self.offsets = Some(o);
    }

    /// The convergence test: relative change of the penalized deviance
    /// against the tolerance, never satisfied from an infinite previous
    /// value.
    fn has_converged(&self, loss: u64, loss_previous: u64, tolerance: u64) -> (r: bool)
        ensures
            r == converged_bits(loss, loss_previous, tolerance),
    {
        if f_is_infinite(loss_previous) {
            return false;
        }
        let rel_change = fdiv(fabs(fsub(loss, loss_previous)), loss_previous);
        flt(rel_change, tolerance)
    }

    /// The gradient `-Xᵀ·wr` over the working residuals, accumulated
    /// observation by observation exactly as `dbeta_bits` folds it.
    #[verifier::loop_isolation(false)]
    fn compute_dbeta(
        &self,
        x: &Vec<u64>,
        y: &Vec<u64>,
        mu: &Vec<u64>,
        dmu: &Vec<u64>,
        var: &Vec<u64>,
        weights: &Vec<u64>,
    ) -> (r: Vec<u64>)
        requires
            y@.len() >= 1,
            x@.len() == y@.len() * (x@.len() as int / y@.len() as int),
            mu@.len() == y@.len(),
            dmu@.len() == y@.len(),
            var@.len() == y@.len(),
            weights@.len() == y@.len(),
        ensures
            r@ == dbeta_bits(
                x@,
                wr_bits(weights@, y@, mu@, dmu@, var@),
                y@.len() as int,
                x@.len() as int / y@.len() as int,
            ),
            r@.len() == x@.len() as int / y@.len() as int,
    {
        let n = y.len();
        let xlen = x.len();
        let p = xlen / n;
        let wr = vmul(&vmul(weights, &vsub(y, mu)), &vdiv(dmu, var));
        let ghost wrs = wr_bits(weights@, y@, mu@, dmu@, var@);
        let mut dbeta: Vec<u64> = Vec::new();
        for q in 0..p
            invariant
                dbeta@.len() == q,
                forall|k: int| 0 <= k < q ==> dbeta@[k] == F64_ZERO,
        {
            dbeta.push(F64_ZERO);
        }
        proof {
            assert(forall|ip: int|
                0 <= ip < p ==> dbeta@[ip] == dbeta_cell(x@, wrs, p as int, ip, 0));
        }
        for i_n in 0..n
            invariant
                wr@ == wrs,
                wr@.len() == n,
                dbeta@.len() == p,
                forall|ip: int|
                    0 <= ip < p ==> dbeta@[ip] == dbeta_cell(x@, wrs, p as int, ip, i_n as int),
        {
            for i_p in 0..p
                invariant
                    wr@ == wrs,
                    wr@.len() == n,
                    i_n < n,
                    dbeta@.len() == p,
                    forall|ip: int|
                        0 <= ip < i_p ==> dbeta@[ip] == dbeta_cell(
                            x@,
                            wrs,
                            p as int,
                            ip,
                            i_n as int + 1,
                        ),
                    forall|ip: int|
                        i_p <= ip < p ==> dbeta@[ip] == dbeta_cell(
                            x@,
                            wrs,
                            p as int,
                            ip,
                            i_n as int,
                        ),
            {
                proof {
                    assert((i_n as int) * (p as int) + (i_p as int) < (n as int) * (p as int))
                        by (nonlinear_arith)
                        requires
                            0 <= (i_n as int) < (n as int),
                            0 <= (i_p as int) < (p as int),
                    ;
                }
                let v = fsub(dbeta[i_p], fmul(x[i_n * p + i_p], wr[i_n]));
                dbeta.set(i_p, v);
            }
        }
        proof {
            assert(dbeta@ =~= dbeta_bits(x@, wrs, n as int, p as int));
        }
        dbeta
    }

    /// The approximate Hessian `Xᵀ·diag(ww)·X` over the working weights,
    /// formed by scaling each row of `X` and multiplying by `Xᵀ`, with no
    /// diagonal matrix materialized.
    #[verifier::loop_isolation(false)]
    fn compute_ddbeta(
        &self,
        x: &Vec<u64>,
        y: &Vec<u64>,
        dmu: &Vec<u64>,
        var: &Vec<u64>,
        weights: &Vec<u64>,
    ) -> (r: Vec<u64>)
        requires
            y@.len() >= 1,
            x@.len() == y@.len() * (x@.len() as int / y@.len() as int),
            dmu@.len() == y@.len(),
            var@.len() == y@.len(),
            weights@.len() == y@.len(),
        ensures
            r@ == hess_bits(
                x@,
                ww_bits(weights@, dmu@, var@),
                y@.len() as int,
                x@.len() as int / y@.len() as int,
            ),
            r@.len() == (x@.len() as int / y@.len() as int) * (x@.len() as int
                / y@.len() as int),
    {
        let n = y.len();
        let xlen = x.len();
        let p = xlen / n;
        let ww = vdiv(&vmul(weights, &vmul(dmu, dmu)), var);
        let ghost wws = ww_bits(weights@, dmu@, var@);
        let mut wx: Vec<u64> = Vec::new();
        proof {
            lemma_mul_basics(p as int);
        }
        for i_n in 0..n
            invariant
                ww@ == wws,
                ww@.len() == n,
                xlen == x@.len(),
                x@.len() == (n as int) * (p as int),
                wx@.len() == (i_n as int) * (p as int),
                forall|q: int| 0 <= q < wx@.len() ==> wx@[q] == mul_bits(x@[q], wws[q / (p as int)]),
        {
            for i_p in 0..p
                invariant
                    ww@ == wws,
                    ww@.len() == n,
                    i_n < n,
                    xlen == x@.len(),
                    x@.len() == (n as int) * (p as int),
                    wx@.len() == (i_n as int) * (p as int) + (i_p as int),
                    forall|q: int|
                        0 <= q < wx@.len() ==> wx@[q] == mul_bits(x@[q], wws[q / (p as int)]),
            {
                proof {
                    assert((i_n as int) * (p as int) + (i_p as int) < (n as int) * (p as int))
                        by (nonlinear_arith)
                        requires
                            0 <= (i_n as int) < (n as int),
                            0 <= (i_p as int) < (p as int),
                    ;
                }
                let ghost q0 = (i_n as int) * (p as int) + (i_p as int);
                wx.push(fmul(x[i_n * p + i_p], ww[i_n]));
                proof {
                    lemma_fundamental_div_mod_converse(q0, p as int, i_n as int, i_p as int);
                }
            }
            proof {
                assert((i_n as int + 1) * (p as int) == (i_n as int) * (p as int) + (p as int))
                    by (nonlinear_arith);
            }
        }
        proof {
            assert(wx@ =~= wx_bits(x@, wws, p as int));
        }
        let out = match matmul(x, &wx, n, n, true, false) {
            Ok(out) => out,
            Err(_) => {
                proof {
                    assert((n as int) * (p as int) == (p as int) * (n as int)) by (nonlinear_arith);
                    lemma_fundamental_div_mod_converse(
                        x@.len() as int,
                        n as int,
                        p as int,
                        0,
                    );
                    lemma_fundamental_div_mod_converse(
                        wx@.len() as int,
                        n as int,
                        p as int,
                        0,
                    );
                    assert(mm_shape_ok(x@.len() as int, wx@.len() as int, n as int, n as int, true, false));
                    assert(false);
                }
                Vec::new()
            },
        };
        proof {
            assert((x@.len() as int / n as int) == p);
            assert(out@.len() == mm_bits(x@, wx@, n as int, n as int, true, false).len());
            assert(out@.len() == (p as int) * (p as int));
        }
        out
    }

    /// Adds each non-intercept coefficient to its gradient coordinate: the
    /// ridge penalty's contribution to the gradient, intercept excluded.
    #[verifier::loop_isolation(false)]
    fn apply_dbeta_penalty(&self, dbeta: &mut Vec<u64>, coef: &Vec<u64>)
        requires
            old(dbeta)@.len() == coef@.len(),
            coef@.len() >= 1,
        ensures
            final(dbeta)@ == pen_dbeta_bits(old(dbeta)@, coef@),
    {
        let plen = coef.len();
        for i in 1..plen
            invariant
                dbeta@.len() == plen,
                coef@.len() == plen,
                forall|k: int| 1 <= k < i ==> dbeta@[k] == add_bits(old(dbeta)@[k], coef@[k]),
                forall|k: int| 0 <= k < plen && !(1 <= k < i) ==> dbeta@[k] == old(dbeta)@[k],
        {
            let v = fadd(dbeta[i], coef[i]);
            dbeta.set(i, v);
        }
        proof {
            assert(dbeta@ =~= pen_dbeta_bits(old(dbeta)@, coef@));
        }
    }

    /// Adds `alpha` to every diagonal entry of the Hessian, the
    /// intercept's included: the documented ridge convention for the
    /// curvature side of the penalty.
    #[verifier::loop_isolation(false)]
    fn apply_ddbeta_penalty(&self, ddbeta: &mut Vec<u64>, n_predictors: usize)
        requires
            n_predictors >= 1,
            old(ddbeta)@.len() == n_predictors * n_predictors,
        ensures
            final(ddbeta)@ == pen_ddbeta_bits(old(ddbeta)@, self.alpha, n_predictors as int),
    {
        let p = n_predictors;
        let ddlen = ddbeta.len();
        for i in 0..p
            invariant
                ddlen == ddbeta@.len(),
                ddbeta@.len() == (p as int) * (p as int),
                forall|q: int|
                    0 <= q < ddbeta@.len() && q / (p as int) == q % (p as int) && q / (p as int)
                        < i ==> ddbeta@[q] == add_bits(old(ddbeta)@[q], self.alpha),
                forall|q: int|
                    0 <= q < ddbeta@.len() && !(q / (p as int) == q % (p as int) && q / (p as int)
                        < i) ==> ddbeta@[q] == old(ddbeta)@[q],
        {
            proof {
                assert((i as int) * (p as int) + (i as int) < (p as int) * (p as int))
                    by (nonlinear_arith)
                    requires
                        0 <= (i as int) < (p as int),
                ;
            }
            let ghost q0 = (i as int) * (p as int) + (i as int);
            let v = fadd(ddbeta[i * p + i], self.alpha);
            ddbeta.set(i * p + i, v);
            proof {
                lemma_fundamental_div_mod_converse(q0, p as int, i as int, i as int);
                assert forall|q: int|
                    0 <= q < ddbeta@.len() && #[trigger] (q / (p as int)) == q % (p as int) && q
                        / (p as int) < i as int + 1 implies ddbeta@[q] == add_bits(
                    old(ddbeta)@[q],
                    self.alpha,
                ) by {
                    lemma_fundamental_div_mod(q, p as int);
                    if q / (p as int) == i as int {
                        assert((p as int) * (i as int) == (i as int) * (p as int))
                            by (nonlinear_arith);
                        assert(q == q0);
                    }
                }
            }
        }
        proof {
            assert forall|q: int|
                0 <= q < ddbeta@.len() && #[trigger] (q / (p as int)) == q % (p as int) implies q
                / (p as int) < p as int by {
                lemma_multiply_divide_lt(q, p as int, p as int);
            }
            assert(ddbeta@ =~= pen_ddbeta_bits(old(ddbeta)@, self.alpha, p as int));
        }
    }

    /// Fits the model by iteratively reweighted least squares, for at most
    /// `max_iter` passes (one pass always runs).  Validates the shapes and
    /// the design invariant up front: a malformed matrix or mismatched
    /// weight/offset lengths are a shape error, a first column that is not
    /// identically one is an invalid design, and a working matrix the
    /// solver refuses mid-loop is degenerate; on any error the model is
    /// left untouched.  On success the fitted coefficients, the
    /// unpenalized deviance and the observed information matrix are
    /// exactly the values of the spec-level loop.
    #[verifier::loop_isolation(false)]
    #[verifier::rlimit(100)]
    pub fn fit(&mut self, x: &Vec<u64>, y: &Vec<u64>, max_iter: usize) -> (r: Result<
        (),
        MathError,
    >)
        requires
            y@.len() < F64_EXACT_INT_BOUND,
        ensures
            ({
                let n = y@.len() as int;
                let p = x@.len() as int / n;
                let fam = old(self).family;
                let w = opt_view(old(self).weights);
                let off = opt_view(old(self).offsets);
                let mat_ok = n >= 1 && x@.len() as int % n == 0;
                let design_ok = is_design_bits(x@, n);
                let lens_ok = (match w {
                    Some(ws) => ws.len() == n,
                    None => true,
                }) && (match off {
                    Some(os) => os.len() == n,
                    None => true,
                });
                let outcome = fit_spec(
                    fam,
                    x@,
                    y@,
                    w,
                    off,
                    old(self).alpha,
                    old(self).tolerance,
                    max_iter as int,
                );
                match r {
                    Err(MathError::ShapeMismatch) => (!mat_ok || (design_ok && !lens_ok))
                        && *final(self) == *old(self),
                    Err(MathError::InvalidDesign) => mat_ok && !design_ok && *final(self) == *old(
                        self,
                    ),
                    Err(MathError::NumericDegeneracy) => mat_ok && design_ok && lens_ok
                        && outcome is None && *final(self) == *old(self),
                    Ok(_) => mat_ok && design_ok && lens_ok && (match outcome {
                        Some(pair) => {
                            let mu = glm_mu(fam, x@, pair.1, off, n, p);
                            &&& final(self).family == fam
                            &&& final(self).alpha == old(self).alpha
                            &&& final(self).tolerance == old(self).tolerance
                            &&& final(self).weights == old(self).weights
                            &&& final(self).offsets == old(self).offsets
                            &&& opt_view(final(self).coef) == Some(pair.0)
                            &&& final(self).deviance == Some(deviance_bits(fam, y@, mu))
                            &&& opt_view(final(self).information_matrix) == Some(
                                glm_hess(fam, x@, eff_weights(w, n), pair.1, off, n, p),
                            )
                        },
                        None => false,
                    }),
                }
            }),
    {
        let n = y.len();
        let p = match is_matrix(x, n) {
            Ok(p) => p,
            Err(_) => {
                return Err(MathError::ShapeMismatch);
            },
        };
        proof {
            assert((n as int) * (p as int) == (p as int) * (n as int)) by (nonlinear_arith);
            lemma_fundamental_div_mod_converse(x@.len() as int, n as int, p as int, 0);
        }
        if !is_design(x, n) {
            return Err(MathError::InvalidDesign);
        }
        let weights: Vec<u64> = match &self.weights {
            Some(w) => {
                if w.len() != n {
                    return Err(MathError::ShapeMismatch);
                }
                clone_vec(w)
            },
            None => {
                let mut ones: Vec<u64> = Vec::new();
                for q in 0..n
                    invariant
                        ones@.len() == q,
                        forall|k: int| 0 <= k < q ==> ones@[k] == F64_ONE,
                {
                    ones.push(F64_ONE);
                }
                ones
            },
        };
        match &self.offsets {
            Some(o) => {
                if o.len() != n {
                    return Err(MathError::ShapeMismatch);
                }
            },
            None => {},
        }
        let ghost fam = self.family;
        let ghost alpha0 = self.alpha;
        let ghost tol0 = self.tolerance;
        let ghost w_spec = opt_view(self.weights);
        let ghost off_spec = opt_view(self.offsets);
        proof {
            assert(weights@ =~= eff_weights(w_spec, n as int));
            assert(p >= 1);
        }
        let mut coef: Vec<u64> = Vec::new();
        for q in 0..p
            invariant
                coef@.len() == q,
                forall|k: int| 0 <= k < q ==> coef@[k] == F64_ZERO,
        {
            coef.push(F64_ZERO);
        }
        let m0 = mean(y);
        coef.set(0, m0);
        proof {
            assert(coef@ =~= init_coef(y@, p as int));
        }
        let mut penalized_deviance: u64 = F64_INF;
        let mut n_iter: usize = 0;
        let ghost rounds: int = if max_iter as int <= 0 {
            1
        } else {
            max_iter as int
        };
        let ghost target = irls_loop(
            fam,
            x@,
            y@,
            weights@,
            off_spec,
            alpha0,
            tol0,
            n as int,
            p as int,
            coef@,
            F64_INF,
            rounds as nat,
        );
        proof {
            assert(target == fit_spec(fam, x@, y@, w_spec, off_spec, alpha0, tol0, max_iter as int));
        }
        let mut mu: Vec<u64> = Vec::new();
        let mut dmu: Vec<u64> = Vec::new();
        let mut var: Vec<u64> = Vec::new();
        let ghost mut coef_pre: Seq<u64> = coef@;
        #[verifier::loop_isolation(true)]
        loop
            invariant_except_break
                n >= 1,
                y@.len() == n,
                *self == *old(self),
                fam == old(self).family,
                alpha0 == old(self).alpha,
                tol0 == old(self).tolerance,
                w_spec == opt_view(old(self).weights),
                is_design_bits(x@, n as int),
                (match w_spec {
                    Some(ws) => ws.len() == n,
                    None => true,
                }),
                target == fit_spec(fam, x@, y@, w_spec, off_spec, alpha0, tol0, max_iter as int),
                p >= 1,
                p == x@.len() as int / n as int,
                x@.len() == (n as int) * (p as int),
                x@.len() as int % n as int == 0,
                weights@.len() == n,
                self.family == fam,
                self.alpha == alpha0,
                self.tolerance == tol0,
                opt_view(self.offsets) == off_spec,
                (match off_spec {
                    Some(os) => os.len() == n,
                    None => true,
                }),
                rounds == (if max_iter as int <= 0 {
                    1int
                } else {
                    max_iter as int
                }),
                (n_iter as int) < rounds,
                coef@.len() == p,
                irls_loop(
                    fam,
                    x@,
                    y@,
                    weights@,
                    off_spec,
                    alpha0,
                    tol0,
                    n as int,
                    p as int,
                    coef@,
                    penalized_deviance,
                    (rounds - n_iter) as nat,
                ) == target,
            ensures
                coef@.len() == p,
                mu@.len() == n,
                dmu@.len() == n,
                var@.len() == n,
                target == Some((coef@, coef_pre)),
                mu@ == glm_mu(fam, x@, coef_pre, off_spec, n as int, p as int),
                dmu@ == d_inv_link_bits(fam, mu@),
                var@ == variance_bits(fam, mu@),
            decreases rounds - n_iter,
        {
            let nu0 = match matmul(x, &coef, n, p, false, false) {
                Ok(v) => v,
                Err(_) => {
                    proof {
                        lemma_fundamental_div_mod_converse(coef@.len() as int, p as int, 1, 0);
                        assert(mm_shape_ok(
                            x@.len() as int,
                            coef@.len() as int,
                            n as int,
                            p as int,
                            false,
                            false,
                        ));
                        assert(false);
                    }
                    Vec::new()
                },
            };
            proof {
                lemma_fundamental_div_mod_converse(coef@.len() as int, p as int, 1, 0);
                assert(mm_bits(x@, coef@, n as int, p as int, false, false).len() == (n as int)
                    * 1) by {
                    lemma_mul_basics(n as int);
                };
                assert(nu0@.len() == n);
            }
            let nu = match &self.offsets {
                Some(o) => vadd(&nu0, o),
                None => nu0,
            };
            proof {
                assert(nu@ == glm_nu(x@, coef@, off_spec, n as int, p as int));
                assert(nu@.len() == n);
            }
            mu = self.family.inv_link(&nu);
            dmu = self.family.d_inv_link(&nu, &mu);
            var = self.family.variance(&mu);
            let mut dbeta = self.compute_dbeta(x, y, &mu, &dmu, &var, &weights);
            let mut ddbeta = self.compute_ddbeta(x, y, &dmu, &var, &weights);
            if flt(F64_ZERO, self.alpha) {
                let coef_for_penalty = clone_vec(&coef);
                self.apply_dbeta_penalty(&mut dbeta, &coef_for_penalty);
                self.apply_ddbeta_penalty(&mut ddbeta, p);
            }
            let ghost mu_s = glm_mu(fam, x@, coef@, off_spec, n as int, p as int);
            let ghost db_s = if lt_bits(F64_ZERO, alpha0) {
                pen_dbeta_bits(
                    dbeta_bits(
                        x@,
                        wr_bits(weights@, y@, mu_s, dmu@, var@),
                        n as int,
                        p as int,
                    ),
                    coef@,
                )
            } else {
                dbeta_bits(x@, wr_bits(weights@, y@, mu_s, dmu@, var@), n as int, p as int)
            };
            let ghost dd_s = if lt_bits(F64_ZERO, alpha0) {
                pen_ddbeta_bits(
                    hess_bits(x@, ww_bits(weights@, dmu@, var@), n as int, p as int),
                    alpha0,
                    p as int,
                )
            } else {
                hess_bits(x@, ww_bits(weights@, dmu@, var@), n as int, p as int)
            };
            proof {
                assert(dbeta@ == db_s);
                assert(ddbeta@ == dd_s);
                assert(ddbeta@.len() == (p as int) * (p as int));
                lemma_square_side(ddbeta@.len() as int, p as int);
            }
            let delta = match solve(&ddbeta, &dbeta) {
                Ok(d) => d,
                Err(_) => {
                    proof {
                        assert(!sym_ok(dd_s, p as int));
                        assert(irls_step(
                            fam,
                            x@,
                            y@,
                            weights@,
                            off_spec,
                            alpha0,
                            n as int,
                            p as int,
                            coef@,
                        ).0 is None);
                        assert(target is None);
                    }
                    return Err(MathError::NumericDegeneracy);
                },
            };
            proof {
                assert(sym_ok(dd_s, p as int));
                assert(delta@ == solve_bits(dd_s, db_s));
                assert(delta@.len() == p);
                coef_pre = coef@;
            }
            let newcoef = vsub(&coef, &delta);
            coef = newcoef;
            let pen_prev = penalized_deviance;
            penalized_deviance = self.family.penalized_deviance(y, &mu, self.alpha, &coef);
            let conv = self.has_converged(penalized_deviance, pen_prev, self.tolerance);
            n_iter = n_iter + 1;
            proof {
                assert(irls_step(
                    fam,
                    x@,
                    y@,
                    weights@,
                    off_spec,
                    alpha0,
                    n as int,
                    p as int,
                    coef_pre,
                ) == (Some(coef@), penalized_deviance));
            }
            if n_iter >= max_iter || conv {
                proof {
                    let left = rounds - (n_iter - 1);
                    assert(left <= 1 || converged_bits(penalized_deviance, pen_prev, tol0));
                    assert(target == Some((coef@, coef_pre)));
                }
                break ;
            }
            proof {
                let left = rounds - (n_iter - 1);
                assert(!(left <= 1 || converged_bits(penalized_deviance, pen_prev, tol0)));
                assert(irls_loop(
                    fam,
                    x@,
                    y@,
                    weights@,
                    off_spec,
                    alpha0,
                    tol0,
                    n as int,
                    p as int,
                    coef@,
                    penalized_deviance,
                    (rounds - n_iter) as nat,
                ) == target);
            }
        }
        let ghost coef_final = coef@;
        let dev = self.family.deviance(y, &mu);
        let info = self.compute_ddbeta(x, y, &dmu, &var, &weights);
        self.coef = Some(coef);
        self.deviance = Some(dev);
        self.information_matrix = Some(info);
        Ok(())
    }
}

/// A copy of a vector of bit patterns, element for element.
#[verifier::loop_isolation(false)]
fn clone_vec(v: &Vec<u64>) -> (r: Vec<u64>)
    ensures
        r@ == v@,
{
    let n = v.len();
    let mut r: Vec<u64> = Vec::new();
    for i in 0..n
        invariant
            v@.len() == n,
            r@.len() == i,
            forall|k: int| 0 <= k < i ==> r@[k] == v@[k],
    {
        r.push(v[i]);
    }
    proof {
        assert(r@ =~= v@);
    }
    r
}

} // verus!
