//! Shape validators, the design helpers, matrix multiplication with all
//! four transpose-flag combinations, and the scalar layer underneath.

use compute::matrix::{design, is_design, is_matrix, is_square, is_symmetric, matmul};
use compute::scalar::f64_of_usize;
use compute::vecops::{mean, sum, vadd, vdiv, vmul, vsub};
use compute::MathError;

fn bits_vec(v: &[f64]) -> Vec<u64> {
    v.iter().map(|x| x.to_bits()).collect()
}

fn vals(v: &[u64]) -> Vec<f64> {
    v.iter().map(|x| f64::from_bits(*x)).collect()
}

fn approx(a: f64, b: f64, eps: f64) {
    assert!((a - b).abs() < eps, "{} !~ {} (eps {})", a, b, eps);
}

/// The side length comes back for every perfect square and a shape error
/// for everything else.
#[test]
fn test_is_square() {
    assert_eq!(is_square(&bits_vec(&[])), Ok(0));
    assert_eq!(is_square(&bits_vec(&[7.])), Ok(1));
    assert_eq!(is_square(&vec![0u64; 9]), Ok(3));
    assert_eq!(is_square(&vec![0u64; 144]), Ok(12));
    assert_eq!(is_square(&vec![0u64; 2]), Err(MathError::ShapeMismatch));
    assert_eq!(is_square(&vec![0u64; 10]), Err(MathError::ShapeMismatch));
    assert_eq!(is_square(&vec![0u64; 143]), Err(MathError::ShapeMismatch));
}

#[test]
fn test_is_matrix() {
    assert_eq!(is_matrix(&vec![0u64; 6], 2), Ok(3));
    assert_eq!(is_matrix(&vec![0u64; 6], 3), Ok(2));
    assert_eq!(is_matrix(&vec![0u64; 7], 2), Err(MathError::ShapeMismatch));
    assert_eq!(is_matrix(&vec![0u64; 6], 0), Err(MathError::ShapeMismatch));
}

/// True exactly when the first column is all exactly one.
#[test]
fn test_is_design() {
    assert!(is_design(&bits_vec(&[1., 5., 1., 7.]), 2));
    assert!(is_design(&bits_vec(&[1., 1., 1.]), 3));
    assert!(!is_design(&bits_vec(&[1., 5., 0.9999999, 7.]), 2));
    assert!(!is_design(&bits_vec(&[1., 5., -1., 7.]), 2));
    assert!(!is_design(&bits_vec(&[1., 5., 1.]), 2));
    assert!(!is_design(&bits_vec(&[]), 2));
}

#[test]
fn test_is_symmetric() {
    assert!(is_symmetric(&bits_vec(&[2., 1., 1., 3.])));
    assert!(!is_symmetric(&bits_vec(&[2., 1., 1.5, 3.])));
    assert!(!is_symmetric(&bits_vec(&[1., 2., 3.])));
    // Entries that differ only at rounding level still pass.
    assert!(is_symmetric(&bits_vec(&[
        2.,
        1.0000000000000002,
        1.,
        3.,
    ])));
}

#[test]
fn test_design_prepends_ones() {
    let xd = vals(&design(&bits_vec(&[2., 3., 4.]), 3));
    assert_eq!(xd, vec![1., 2., 1., 3., 1., 4.]);
    let xd2 = vals(&design(&bits_vec(&[2., 3., 4., 5.]), 2));
    assert_eq!(xd2, vec![1., 2., 3., 1., 4., 5.]);
}

/// All four transpose-flag combinations produce the very same bits as the
/// plain product, and the plain product matches a naive triple loop.
#[test]
fn test_matmul_transpose_combinations() {
    let m = 2usize;
    let k = 3usize;
    let n = 4usize;
    let a = vec![0.7, -1.2, 2.5, 3.1, 0.02, -0.4];
    let b = vec![
        1.5, 0.3, -2.0, 0.25, 4.2, -0.75, 1.1, 0.6, -3.3, 2.4, 0.9, -1.8,
    ];
    let mut at = vec![0.0f64; m * k];
    for i in 0..m {
        for t in 0..k {
            at[t * m + i] = a[i * k + t];
        }
    }
    let mut bt = vec![0.0f64; k * n];
    for t in 0..k {
        for j in 0..n {
            bt[j * k + t] = b[t * n + j];
        }
    }
    let base = matmul(&bits_vec(&a), &bits_vec(&b), m, k, false, false).unwrap();
    let v1 = matmul(&bits_vec(&at), &bits_vec(&b), k, k, true, false).unwrap();
    let v2 = matmul(&bits_vec(&a), &bits_vec(&bt), m, n, false, true).unwrap();
    let v3 = matmul(&bits_vec(&at), &bits_vec(&bt), k, n, true, true).unwrap();
    assert_eq!(base, v1);
    assert_eq!(base, v2);
    assert_eq!(base, v3);

    let got = vals(&base);
    for i in 0..m {
        for j in 0..n {
            let mut s = 0.0f64;
            for t in 0..k {
                s += a[i * k + t] * b[t * n + j];
            }
            approx(got[i * n + j], s, 1e-12);
        }
    }
}

#[test]
fn test_matmul_rejects_mismatched_shapes() {
    let a = bits_vec(&[1., 2., 3., 4., 5., 6.]);
    let b = bits_vec(&[1., 2., 3., 4.]);
    assert_eq!(matmul(&a, &b, 2, 2, false, false), Err(MathError::ShapeMismatch));
    assert_eq!(matmul(&a, &b, 0, 2, false, false), Err(MathError::ShapeMismatch));
    assert_eq!(matmul(&a, &b, 4, 2, false, false), Err(MathError::ShapeMismatch));
    assert!(matmul(&a, &b, 3, 2, false, false).is_ok());
}

/// The integer encoder produces exactly the bit pattern of the float cast.
#[test]
fn test_f64_of_usize_matches_cast() {
    for n in [0usize, 1, 2, 3, 5, 7, 20, 255, 256, 1023, 1024, 123_456_789, (1 << 52) - 1, 1 << 52, (1 << 53) - 1] {
        assert_eq!(f64_of_usize(n), (n as f64).to_bits(), "n = {}", n);
    }
}

#[test]
fn test_vector_ops_and_mean() {
    let u = vec![1.0f64, 2.0, 3.0, 4.5];
    let v = vec![0.5f64, -1.0, 2.0, 3.0];
    let ub = bits_vec(&u);
    let vb = bits_vec(&v);
    let wanted_add: Vec<f64> = u.iter().zip(&v).map(|(a, b)| a + b).collect();
    let wanted_sub: Vec<f64> = u.iter().zip(&v).map(|(a, b)| a - b).collect();
    let wanted_mul: Vec<f64> = u.iter().zip(&v).map(|(a, b)| a * b).collect();
    let wanted_div: Vec<f64> = u.iter().zip(&v).map(|(a, b)| a / b).collect();
    assert_eq!(vals(&vadd(&ub, &vb)), wanted_add);
    assert_eq!(vals(&vsub(&ub, &vb)), wanted_sub);
    assert_eq!(vals(&vmul(&ub, &vb)), wanted_mul);
    assert_eq!(vals(&vdiv(&ub, &vb)), wanted_div);
    assert_eq!(f64::from_bits(sum(&ub)), 1.0 + 2.0 + 3.0 + 4.5);
    assert_eq!(f64::from_bits(mean(&ub)), (1.0 + 2.0 + 3.0 + 4.5) / 4.0);
    assert!(f64::from_bits(mean(&bits_vec(&[]))).is_nan());
}
