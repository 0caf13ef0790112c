//! The Cholesky decomposition and the linear solver, against reference
//! factors and the defining identity `L·Lᵀ ≈ A`.

use compute::cholesky::{cholesky, solve};
use compute::MathError;

fn bits_vec(v: &[f64]) -> Vec<u64> {
    v.iter().map(|x| x.to_bits()).collect()
}

fn vals(v: &[u64]) -> Vec<f64> {
    v.iter().map(|x| f64::from_bits(*x)).collect()
}

fn approx(a: f64, b: f64, eps: f64) {
    assert!((a - b).abs() < eps, "{} !~ {} (eps {})", a, b, eps);
}

#[test]
fn test_cholesky() {
    let a1 = vec![
        6., 3., 4., 8., 3., 6., 5., 1., 4., 5., 10., 7., 8., 1., 7., 25.,
    ];
    let l1 = vals(&cholesky(&bits_vec(&a1)).unwrap());
    let b1 = vec![
        2.449489742783178,
        0.0,
        0.0,
        0.0,
        1.2247448713915892,
        2.1213203435596424,
        0.0,
        0.0,
        1.6329931618554523,
        1.414213562373095,
        2.309401076758503,
        0.0,
        3.2659863237109046,
        -1.4142135623730956,
        1.5877132402714704,
        3.1324910215354165,
    ];

    let a2 = vec![4., 12., -16., 12., 37., -43., -16., -43., 98.];
    let l2 = vals(&cholesky(&bits_vec(&a2)).unwrap());
    let b2 = vec![2., 0., 0., 6., 1., 0., -8., 5., 3.];

    let a3 = vec![25., 15., -5., 15., 18., 0., -5., 0., 11.];
    let l3 = vals(&cholesky(&bits_vec(&a3)).unwrap());
    let b3 = vec![5., 0., 0., 3., 3., 0., -1., 1., 3.];

    let _a = [a1, a2, a3];
    let l = [l1, l2, l3];
    let b = [b1, b2, b3];

    for i in 0..3 {
        for j in 0..l.len() {
            approx(l[i][j], b[i][j], 1e-2);
        }
    }
}

#[test]
fn test_cholesky_reconstructs_matrix() {
    // For symmetric positive-definite A, the factor satisfies
    // L·Lᵀ ≈ A elementwise.
    let mats: Vec<(usize, Vec<f64>)> = vec![
        (3, vec![4., 12., -16., 12., 37., -43., -16., -43., 98.]),
        (3, vec![25., 15., -5., 15., 18., 0., -5., 0., 11.]),
        (2, vec![2., 1., 1., 3.]),
        (4, vec![
            10., 2., 3., 1., 2., 12., 1., 4., 3., 1., 11., 2., 1., 4., 2., 9.,
        ]),
    ];
    for (n, a) in mats {
        let l = vals(&cholesky(&bits_vec(&a)).unwrap());
        for i in 0..n {
            for j in 0..n {
                let mut s = 0.0f64;
                for t in 0..n {
                    s += l[i * n + t] * l[j * n + t];
                }
                approx(s, a[i * n + j], 1e-6);
            }
        }
    }
}

/// The factor is lower triangular: everything strictly above the
/// diagonal comes back as exact zero.
#[test]
fn test_cholesky_upper_triangle_zero() {
    let a = vec![
        10., 2., 3., 1., 2., 12., 1., 4., 3., 1., 11., 2., 1., 4., 2., 9.,
    ];
    let l = cholesky(&bits_vec(&a)).unwrap();
    for i in 0..4 {
        for j in (i + 1)..4 {
            assert_eq!(l[i * 4 + j], 0.0f64.to_bits());
        }
    }
}

#[test]
fn test_cholesky_rejects_bad_inputs() {
    // A flat length that is no perfect square is a shape error.
    let a = bits_vec(&[1., 2., 3.]);
    assert_eq!(cholesky(&a), Err(MathError::ShapeMismatch));
    // A visibly asymmetric square matrix is degenerate.
    let b = bits_vec(&[1., 2., 5., 4.]);
    assert_eq!(cholesky(&b), Err(MathError::NumericDegeneracy));
}

#[test]
fn test_solve_linear_system() {
    // A·x = b for symmetric positive-definite A.
    let a = vec![4., 12., -16., 12., 37., -43., -16., -43., 98.];
    let b = vec![1., 2., 3.];
    let x = vals(&solve(&bits_vec(&a), &bits_vec(&b)).unwrap());
    for i in 0..3 {
        let mut s = 0.0f64;
        for j in 0..3 {
            s += a[i * 3 + j] * x[j];
        }
        approx(s, b[i], 1e-8);
    }
}

#[test]
fn test_solve_rejects_bad_shapes() {
    let a = bits_vec(&[4., 1., 1., 3.]);
    let b = bits_vec(&[1., 2., 3.]);
    assert_eq!(solve(&a, &b), Err(MathError::ShapeMismatch));
    let c = bits_vec(&[1., 2., 3., 4., 5.]);
    assert_eq!(solve(&c, &b), Err(MathError::ShapeMismatch));
}
