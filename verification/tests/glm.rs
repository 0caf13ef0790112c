//! The GLM fitting engine: the classic exam-pass logistic regression,
//! near-monotone deviance, ridge shrinkage, and the error paths.

use compute::family::ExponentialFamily;
use compute::glm::GLM;
use compute::MathError;
use compute::matrix::design;

fn bits_vec(v: &[f64]) -> Vec<u64> {
    v.iter().map(|x| x.to_bits()).collect()
}

fn vals(v: &[u64]) -> Vec<f64> {
    v.iter().map(|x| f64::from_bits(*x)).collect()
}

fn approx(a: f64, b: f64, eps: f64) {
    assert!((a - b).abs() < eps, "{} !~ {} (eps {})", a, b, eps);
}

fn exam_hours() -> Vec<f64> {
    vec![
        0.50, 0.75, 1.00, 1.25, 1.50, 1.75, 1.75, 2.00, 2.25, 2.50, 2.75, 3.00, 3.25, 3.50,
        4.00, 4.25, 4.50, 4.75, 5.00, 5.50,
    ]
}

fn exam_pass() -> Vec<f64> {
    vec![
        0., 0., 0., 0., 0., 0., 1., 0., 1., 0., 1., 0., 1., 0., 1., 1., 1., 1., 1., 1.,
    ]
}

/// The probability-of-passing-an-exam example: hours studied against a
/// pass/fail outcome, fitted with a Bernoulli family.
#[test]
fn test_glm_logistic() {
    let x = exam_hours();
    let y = exam_pass();
    let n = y.len();
    let xd = design(&bits_vec(&x), n);

    let mut glm = GLM::new(ExponentialFamily::Bernoulli);
    glm.set_tolerance(1e-6f64.to_bits());
    glm.fit(&xd, &bits_vec(&y), 25).unwrap();
    let coef = vals(&glm.coef.unwrap());
    approx(coef[0], -4.0777, 1e-3);
    approx(coef[1], 1.5046, 1e-3);
}

/// The deviance across increasing iteration caps decreases near
/// monotonically after the first couple of passes.
#[test]
fn test_deviance_nearly_monotone() {
    let x = exam_hours();
    let y = exam_pass();
    let n = y.len();
    let xd = design(&bits_vec(&x), n);
    let yb = bits_vec(&y);

    let mut devs: Vec<f64> = Vec::new();
    for cap in 1..=8usize {
        let mut glm = GLM::new(ExponentialFamily::Bernoulli);
        glm.set_tolerance(1e-12f64.to_bits());
        glm.fit(&xd, &yb, cap).unwrap();
        devs.push(f64::from_bits(glm.deviance.unwrap()));
    }
    for k in 2..devs.len() - 1 {
        assert!(
            devs[k + 1] <= devs[k] + 1e-8,
            "deviance rose from {} to {} at cap {}",
            devs[k],
            devs[k + 1],
            k + 2
        );
    }
}

/// Strengthening the ridge penalty strictly shrinks the non-intercept
/// coefficients.
#[test]
fn test_ridge_shrinkage() {
    let x = exam_hours();
    let y = exam_pass();
    let n = y.len();
    let xd = design(&bits_vec(&x), n);
    let yb = bits_vec(&y);

    let mut norms: Vec<f64> = Vec::new();
    for alpha in [0.0f64, 0.5, 2.0] {
        let mut glm = GLM::new(ExponentialFamily::Bernoulli);
        glm.set_penalty(alpha.to_bits());
        glm.fit(&xd, &yb, 50).unwrap();
        let coef = vals(&glm.coef.unwrap());
        let slope_sq: f64 = coef[1..].iter().map(|c| c * c).sum();
        norms.push(slope_sq);
    }
    assert!(norms[1] < norms[0], "{} !< {}", norms[1], norms[0]);
    assert!(norms[2] < norms[1], "{} !< {}", norms[2], norms[1]);
}

/// A Gaussian fit with an identity link recovers an exact linear
/// relationship.
#[test]
fn test_glm_gaussian_exact_line() {
    let x = vec![0., 1., 2., 3., 4., 5.];
    let y: Vec<f64> = x.iter().map(|v| 2.0 + 3.0 * v).collect();
    let n = y.len();
    let xd = design(&bits_vec(&x), n);
    let mut glm = GLM::new(ExponentialFamily::Gaussian);
    glm.fit(&xd, &bits_vec(&y), 10).unwrap();
    let coef = vals(&glm.coef.unwrap());
    approx(coef[0], 2.0, 1e-8);
    approx(coef[1], 3.0, 1e-8);
}

/// A Poisson fit recovers log-linear rates.
#[test]
fn test_glm_poisson() {
    let x = vec![0., 1., 2., 3., 4., 5., 6., 7.];
    let y = vec![1., 1., 2., 4., 6., 11., 18., 30.];
    let n = y.len();
    let xd = design(&bits_vec(&x), n);
    let mut glm = GLM::new(ExponentialFamily::Poisson);
    glm.fit(&xd, &bits_vec(&y), 50).unwrap();
    let coef = vals(&glm.coef.unwrap());
    // The fitted slope sits near ln(30/1)/7.
    assert!(coef[1] > 0.4 && coef[1] < 0.6, "slope {}", coef[1]);
}

/// A fresh model carries the documented defaults.
#[test]
fn test_new_model_defaults() {
    let glm = GLM::new(ExponentialFamily::Gaussian);
    assert_eq!(glm.alpha, 0.0f64.to_bits());
    assert_eq!(glm.tolerance, 1e-5f64.to_bits());
    assert!(glm.weights.is_none());
    assert!(glm.offsets.is_none());
    assert!(glm.coef.is_none());
    assert!(glm.deviance.is_none());
    assert!(glm.information_matrix.is_none());
}

#[test]
fn test_fit_rejects_invalid_design() {
    // First column not identically one.
    let x = bits_vec(&[1., 2., 0.5, 3., 1., 4.]);
    let y = bits_vec(&[0., 1., 0.]);
    let mut glm = GLM::new(ExponentialFamily::Bernoulli);
    assert_eq!(glm.fit(&x, &y, 5), Err(MathError::InvalidDesign));
    assert!(glm.coef.is_none());
}

#[test]
fn test_fit_rejects_bad_shapes() {
    let y = bits_vec(&[0., 1., 0.]);
    // Length not a multiple of the row count.
    let x = bits_vec(&[1., 2., 1., 3., 1.]);
    let mut glm = GLM::new(ExponentialFamily::Bernoulli);
    assert_eq!(glm.fit(&x, &y, 5), Err(MathError::ShapeMismatch));
    // Wrong number of weights.
    let xd = design(&bits_vec(&[2., 3., 4.]), 3);
    let mut glm2 = GLM::new(ExponentialFamily::Bernoulli);
    glm2.set_weights(&bits_vec(&[1., 1.]));
    assert_eq!(glm2.fit(&xd, &y, 5), Err(MathError::ShapeMismatch));
    // Wrong number of offsets.
    let mut glm3 = GLM::new(ExponentialFamily::Bernoulli);
    glm3.set_offset(&bits_vec(&[0., 0., 0., 0.]));
    assert_eq!(glm3.fit(&xd, &y, 5), Err(MathError::ShapeMismatch));
    // An empty response.
    let mut glm4 = GLM::new(ExponentialFamily::Bernoulli);
    assert_eq!(glm4.fit(&xd, &bits_vec(&[]), 5), Err(MathError::ShapeMismatch));
}

/// A Gaussian fit with offsets: the offsets shift the fitted intercept.
#[test]
fn test_fit_with_offsets() {
    let x = vec![0., 1., 2., 3., 4., 5.];
    let y: Vec<f64> = x.iter().map(|v| 2.0 + 3.0 * v).collect();
    let n = y.len();
    let xd = design(&bits_vec(&x), n);
    let mut glm = GLM::new(ExponentialFamily::Gaussian);
    glm.set_offset(&bits_vec(&vec![1.0; n]));
    glm.fit(&xd, &bits_vec(&y), 10).unwrap();
    let coef = vals(&glm.coef.unwrap());
    approx(coef[0], 1.0, 1e-8);
    approx(coef[1], 3.0, 1e-8);
}

/// Weighted and unweighted fits agree when every weight is one.
#[test]
fn test_unit_weights_change_nothing() {
    let x = exam_hours();
    let y = exam_pass();
    let n = y.len();
    let xd = design(&bits_vec(&x), n);
    let yb = bits_vec(&y);
    let mut plain = GLM::new(ExponentialFamily::Bernoulli);
    plain.fit(&xd, &yb, 25).unwrap();
    let mut weighted = GLM::new(ExponentialFamily::Bernoulli);
    weighted.set_weights(&bits_vec(&vec![1.0; n]));
    weighted.fit(&xd, &yb, 25).unwrap();
    assert_eq!(plain.coef.unwrap(), weighted.coef.unwrap());
    assert_eq!(plain.deviance.unwrap(), weighted.deviance.unwrap());
}
