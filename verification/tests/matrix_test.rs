use matrix_polynomial_analysis::eval::is_matrix_nonnegative;
use matrix_polynomial_analysis::matrix::Matrix;
use matrix_polynomial_analysis::matrix_generator::{
    generate_circulant_matrices, generate_random_matrices,
};
use matrix_polynomial_analysis::modes::{i32_to_polynomial_mode, PolynomialMode};
use matrix_polynomial_analysis::polynomial::{Polynomial, UNIT};
use matrix_polynomial_analysis::fuzz_polynomial::verify_polynomial;

#[test]
fn test_identity_and_shift() {
    let ident = Matrix::identity(3);
    assert_eq!(ident.at(0, 0), 1);
    assert_eq!(ident.at(0, 1), 0);
    let shift = Matrix::shift(2);
    assert_eq!(shift.at(0, 1), 1);
    assert_eq!(shift.at(1, 0), 1);
    assert_eq!(shift.at(0, 0), 0);
    // The square of the two-cycle shift is the identity.
    let squared = shift.mul(&shift).unwrap();
    assert_eq!(squared.at(0, 0), 1);
    assert_eq!(squared.at(0, 1), 0);
    assert_eq!(squared.at(1, 0), 0);
    assert_eq!(squared.at(1, 1), 1);
}

#[test]
fn test_row_swapped() {
    let m = Matrix::row_swapped(3, 2);
    assert_eq!(m.at(0, 2), 1);
    assert_eq!(m.at(2, 0), 1);
    assert_eq!(m.at(1, 1), 1);
    assert_eq!(m.at(0, 0), 0);
}

#[test]
fn test_apply_polynomial_at_identity() {
    // p(I) has the coefficient sum on the diagonal.
    let p = Polynomial::from_vec(vec![3 * UNIT, 0, -UNIT, -UNIT, UNIT], 2);
    let e = p.apply_polynomial(&Matrix::identity(2));
    let sum = (3 * UNIT + 0 - UNIT - UNIT + UNIT) as i128;
    assert_eq!(e.at(0, 0), sum);
    assert_eq!(e.at(1, 1), sum);
    assert_eq!(e.at(0, 1), 0);
    assert!(is_matrix_nonnegative(&e));
}

#[test]
fn test_apply_is_linear_in_coefficients() {
    // Evaluating the coefficient-wise sum gives the entry-wise sum of
    // the evaluations, at a fixed probe matrix.
    let c1 = vec![UNIT, 0, UNIT];
    let c2 = vec![0, UNIT, UNIT];
    let csum = vec![UNIT, UNIT, 2 * UNIT];
    let probe = Matrix::shift(2);
    let e1 = Polynomial::from_vec(c1, 2).apply_polynomial(&probe);
    let e2 = Polynomial::from_vec(c2, 2).apply_polynomial(&probe);
    let esum = Polynomial::from_vec(csum, 2).apply_polynomial(&probe);
    for i in 0..2 {
        for j in 0..2 {
            assert_eq!(esum.at(i, j), e1.at(i, j) + e2.at(i, j));
        }
    }
}

#[test]
fn test_generate_random_matrices_bounds() {
    let matrices = generate_random_matrices(3, 2);
    assert_eq!(matrices.len(), 3);
    for m in &matrices {
        assert_eq!(m.size(), 2);
        for i in 0..2 {
            for j in 0..2 {
                assert!(m.at(i, j) >= 0 && m.at(i, j) < 100000);
            }
        }
    }
}

#[test]
fn test_generate_circulant_matrices_structure() {
    let families = generate_circulant_matrices(2, 2, 4);
    assert_eq!(families.len(), 2);
    for family in &families {
        assert!(family.len() >= 1);
        // Power zero is the identity.
        assert_eq!(family[0].at(0, 0), 1);
        assert_eq!(family[0].at(0, 1), 0);
        if family.len() >= 2 {
            // The base circulant carries positive weights.
            for i in 0..2 {
                for j in 0..2 {
                    assert!(family[1].at(i, j) >= 1 && family[1].at(i, j) < 100);
                }
            }
        }
    }
}

#[test]
fn test_verify_polynomial_scenarios() {
    assert!(verify_polynomial(
        &Polynomial::from_vec(vec![UNIT, UNIT, UNIT], 1),
        5
    ));
    assert!(!verify_polynomial(
        &Polynomial::from_vec(vec![-UNIT, UNIT, UNIT], 1),
        5
    ));
    assert!(!verify_polynomial(
        &Polynomial::from_vec(vec![3 * UNIT, 0, -UNIT, -UNIT, UNIT], 2),
        5
    ));
}

#[test]
fn test_mode_decoding() {
    assert!(matches!(i32_to_polynomial_mode(1), PolynomialMode::TestPolynomial));
    assert!(matches!(i32_to_polynomial_mode(2), PolynomialMode::MutatePolynomial));
    assert!(matches!(i32_to_polynomial_mode(3), PolynomialMode::MapSpace));
    assert!(matches!(i32_to_polynomial_mode(4), PolynomialMode::ReturnState));
    assert!(matches!(i32_to_polynomial_mode(0), PolynomialMode::Error));
    assert!(matches!(i32_to_polynomial_mode(9), PolynomialMode::Error));
}

#[test]
fn test_verify_polynomial_structural_rejection() {
    // Rejected by the deterministic structural probes: the extreme
    // coefficients pass, but the coefficient sum is negative.
    assert!(!verify_polynomial(
        &Polynomial::from_vec(vec![UNIT, UNIT, -5 * UNIT, UNIT, UNIT], 2),
        3
    ));
}
