use matrix_polynomial_analysis::polynomial::{Polynomial, UNIT};
use matrix_polynomial_analysis::polynomial_verifier::PolynomialVerifier;

#[test]
fn test_fuzz_polynomial() {
    let polynomial_verifier = PolynomialVerifier::new(10000, 2);

    assert_eq!(
        polynomial_verifier.test_polynomial(&Polynomial::from_vec(
            vec![3 * UNIT, 0, -UNIT, -UNIT, UNIT],
            2
        )),
        false
    );
    assert_eq!(
        polynomial_verifier.test_polynomial(&Polynomial::from_vec(
            vec![3 * UNIT, 0, UNIT, UNIT, UNIT],
            2
        )),
        true
    );
    assert_eq!(
        polynomial_verifier.test_polynomial(&Polynomial::from_vec(
            vec![-3 * UNIT, 0, -UNIT, -UNIT, UNIT],
            2
        )),
        false
    );
    assert_eq!(
        polynomial_verifier.test_polynomial(&Polynomial::from_vec(
            vec![-UNIT, -UNIT, UNIT, -UNIT, -UNIT],
            2
        )),
        false
    );
}

#[test]
fn test_is_polynomial_nonnegative() {
    assert_eq!(
        Polynomial::from_vec(vec![3 * UNIT, 0, -UNIT, -UNIT, UNIT], 2).is_polynomial_nonnegative(),
        false
    );
    assert_eq!(
        Polynomial::from_vec(vec![3 * UNIT, 0, UNIT, UNIT, UNIT], 2).is_polynomial_nonnegative(),
        true
    );
    assert_eq!(
        Polynomial::from_vec(vec![-3 * UNIT, 0, -UNIT, UNIT, UNIT], 2).is_polynomial_nonnegative(),
        false
    );
    assert_eq!(
        Polynomial::from_vec(vec![-UNIT, -UNIT, UNIT, -UNIT, -UNIT], 2)
            .is_polynomial_nonnegative(),
        false
    );
}

#[test]
fn test_nonnegative_with_threshold() {
    let p = Polynomial::from_vec(vec![UNIT, -UNIT / 20, UNIT], 2);
    // -0.05 stays within a -0.1 tolerance but fails the strict check.
    assert!(p.is_polynomial_nonnegative_with_threshold(-104857));
    assert!(!p.is_polynomial_nonnegative_with_threshold(0));
}

#[test]
fn test_first_last_negative_direct() {
    // A negative among the last `size` coefficients rejects.
    let p = Polynomial::from_vec(vec![3 * UNIT, 0, -UNIT, -UNIT, UNIT], 2);
    assert!(p.are_first_last_negative());
    // Fully positive extremes pass.
    let q = Polynomial::from_vec(vec![3 * UNIT, 0, UNIT, UNIT, UNIT], 2);
    assert!(!q.are_first_last_negative());
}

#[test]
fn test_first_last_negative_zero_run() {
    // The trailing zeros shift the effective extreme term in strides
    // of `size`, and the walk lands on the negative coefficient.
    let p = Polynomial::from_vec(vec![UNIT, UNIT, -UNIT, 0, 0], 2);
    assert!(p.are_first_last_negative());
    // With a positive value where the walk stops, no rejection.
    let q = Polynomial::from_vec(vec![UNIT, UNIT, UNIT, 0, 0], 2);
    assert!(!q.are_first_last_negative());
}

#[test]
fn test_min_max_term() {
    let p = Polynomial::from_vec(vec![-3 * UNIT, UNIT, 2 * UNIT], 2);
    assert_eq!(p.max_term(), 3 * UNIT);
    assert_eq!(p.min_term(), UNIT);
}

#[test]
fn test_derivative() {
    // Coefficient at index i - 1 becomes i times the coefficient at i.
    let p = Polynomial::from_vec(vec![3 * UNIT, 2 * UNIT, UNIT], 2);
    let d = p.derivative();
    assert_eq!(d.len(), 2);
    assert_eq!(d.get_size(), 2);
    assert_eq!(d.coefficient(0), 2 * UNIT);
    assert_eq!(d.coefficient(1), 2 * UNIT);
}

#[test]
fn test_approx_equal() {
    assert!(matrix_polynomial_analysis::polynomial::approx_equal(5, 9));
    assert!(!matrix_polynomial_analysis::polynomial::approx_equal(0, 11));
}

#[test]
fn test_to_string_renders_terms() {
    let p = Polynomial::from_vec(vec![UNIT, -UNIT / 2], 1);
    let text = p.to_string();
    assert!(text.contains("+ 1.0000000x^1"));
    assert!(text.contains("- 0.5000000x^0"));
}

#[test]
fn test_polynomial_equality() {
    let a = Polynomial::from_vec(vec![UNIT, 0, -UNIT], 2);
    let b = Polynomial::from_vec(vec![UNIT, 0, -UNIT], 2);
    let c = Polynomial::from_vec(vec![UNIT, 0, UNIT], 2);
    assert_eq!(a, b);
    assert_ne!(a, c);
    let d = Polynomial::from_vec(vec![UNIT, 0, -UNIT], 3);
    assert_ne!(a, d);
}

#[test]
fn test_probe_rejection_is_deterministic() {
    // The extreme coefficients pass, but the coefficient sum is
    // negative, so the identity probe (always part of the corpus)
    // rejects the polynomial whatever the random circulants are.
    let polynomial_verifier = PolynomialVerifier::new(3, 2);
    let p = Polynomial::from_vec(vec![UNIT, UNIT, -5 * UNIT, UNIT, UNIT], 2);
    assert!(!p.are_first_last_negative());
    assert!(!polynomial_verifier.test_polynomial(&p));
}
