use matrix_polynomial_analysis::collapse::collapse_polynomials;
use matrix_polynomial_analysis::polynomial::{Polynomial, UNIT};

#[test]
fn test_collapse_polynomials() {
    // All random matrices values should be between 0 and 1.
    let mut polynomials = Vec::new();
    polynomials.push(Polynomial::from_vec(
        vec![2 * UNIT, 0, -UNIT, UNIT, UNIT],
        2,
    ));
    polynomials.push(Polynomial::from_vec(vec![2 * UNIT, 0, UNIT, UNIT, UNIT], 2));
    polynomials.push(Polynomial::from_vec(
        vec![3 * UNIT, 0, -UNIT, -UNIT, UNIT],
        2,
    ));
    polynomials.push(Polynomial::from_vec(
        vec![2 * UNIT, 0, -UNIT, UNIT, UNIT],
        2,
    ));
    polynomials = collapse_polynomials(&polynomials);

    println!("Polynomials length {}", polynomials.len());

    assert_eq!(polynomials.len(), 2);
    assert_eq!(
        polynomials[0],
        Polynomial::from_vec(vec![2 * UNIT, 0, -UNIT, UNIT, UNIT], 2)
    );
    assert_eq!(
        polynomials[1],
        Polynomial::from_vec(vec![3 * UNIT, 0, -UNIT, -UNIT, UNIT], 2)
    );
}

#[test]
fn test_collapse_is_idempotent() {
    let mut polynomials = Vec::new();
    polynomials.push(Polynomial::from_vec(
        vec![2 * UNIT, 0, -UNIT, UNIT, UNIT],
        2,
    ));
    polynomials.push(Polynomial::from_vec(vec![2 * UNIT, 0, UNIT, UNIT, UNIT], 2));
    polynomials.push(Polynomial::from_vec(
        vec![3 * UNIT, 0, -UNIT, -UNIT, UNIT],
        2,
    ));
    let once = collapse_polynomials(&polynomials);
    let twice = collapse_polynomials(&once);
    assert_eq!(once.len(), twice.len());
    for k in 0..once.len() {
        assert_eq!(once[k], twice[k]);
    }
}

#[test]
fn test_collapse_empty() {
    let polynomials: Vec<Polynomial> = Vec::new();
    let collapsed = collapse_polynomials(&polynomials);
    assert_eq!(collapsed.len(), 0);
}

#[test]
fn test_collapse_keeps_incomparable() {
    let mut polynomials = Vec::new();
    polynomials.push(Polynomial::from_vec(vec![UNIT, -UNIT], 1));
    polynomials.push(Polynomial::from_vec(vec![-UNIT, UNIT], 1));
    let collapsed = collapse_polynomials(&polynomials);
    assert_eq!(collapsed.len(), 2);
}
