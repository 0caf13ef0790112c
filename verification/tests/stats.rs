//! The scalar statistical functions and the chi-square tag.

use compute::chi_squared::ChiSquared;
use compute::stats::{boxcox, boxcox_shifted, logistic, logit};

fn val(x: u64) -> f64 {
    f64::from_bits(x)
}

fn approx(a: f64, b: f64, eps: f64) {
    assert!((a - b).abs() < eps, "{} !~ {} (eps {})", a, b, eps);
}

#[test]
fn test_logistic() {
    assert_eq!(val(logistic(0.0f64.to_bits())), 0.5);
    assert_eq!(val(logistic(f64::NEG_INFINITY.to_bits())), 0.0);
    assert_eq!(val(logistic(f64::INFINITY.to_bits())), 1.0);
    for x in [-3.0f64, -0.7, 0.3, 2.4] {
        approx(val(logistic(x.to_bits())) + val(logistic((-x).to_bits())), 1.0, 1e-12);
    }
}

#[test]
fn test_logit() {
    assert_eq!(val(logit(0.5f64.to_bits()).unwrap()), 0.0);
    for p in [0.1f64, 0.25, 0.5, 0.9] {
        let l = val(logit(p.to_bits()).unwrap());
        approx(val(logistic(l.to_bits())), p, 1e-12);
    }
    assert!(logit((-0.1f64).to_bits()).is_none());
    assert!(logit(1.1f64.to_bits()).is_none());
    assert_eq!(val(logit(0.0f64.to_bits()).unwrap()), f64::NEG_INFINITY);
    assert_eq!(val(logit(1.0f64.to_bits()).unwrap()), f64::INFINITY);
}

#[test]
fn test_boxcox() {
    let x = 2.5f64;
    approx(val(boxcox(x.to_bits(), 0.0f64.to_bits()).unwrap()), x.ln(), 1e-12);
    approx(
        val(boxcox(x.to_bits(), 2.0f64.to_bits()).unwrap()),
        (x.powf(2.0) - 1.0) / 2.0,
        1e-12,
    );
    assert!(boxcox((-1.0f64).to_bits(), 1.0f64.to_bits()).is_none());
    assert!(boxcox(0.0f64.to_bits(), 1.0f64.to_bits()).is_none());
}

#[test]
fn test_boxcox_shifted() {
    let x = 2.0f64;
    let alpha = 0.5f64;
    approx(
        val(boxcox_shifted(x.to_bits(), 0.0f64.to_bits(), alpha.to_bits()).unwrap()),
        (x + alpha).ln(),
        1e-12,
    );
    approx(
        val(boxcox_shifted(x.to_bits(), 3.0f64.to_bits(), alpha.to_bits()).unwrap()),
        ((x + alpha).powf(3.0) - 1.0) / 3.0,
        1e-12,
    );
    assert!(boxcox_shifted(0.4f64.to_bits(), 1.0f64.to_bits(), alpha.to_bits()).is_none());
}

#[test]
fn test_chi_squared_dof() {
    let mut c = ChiSquared::new(4);
    assert_eq!(c.dof(), 4);
    c.set_dof(7);
    assert_eq!(c.dof(), 7);
    let d = ChiSquared::default();
    assert_eq!(d.dof(), 1);
}
