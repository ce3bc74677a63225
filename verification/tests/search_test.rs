use matrix_polynomial_analysis::current_state::CurrentState;
use matrix_polynomial_analysis::polynomial::{Polynomial, UNIT};
use matrix_polynomial_analysis::polynomial_verifier::PolynomialVerifier;
use matrix_polynomial_analysis::search::{
    continue_mutating_polynomial, generate_mutated_polynomials, minimize_polynomial_coefficients,
    mutate_coefficients, mutate_polynomial, process_combination,
};

#[test]
fn test_minimizer_result_is_boundary_candidate() {
    let verifier = PolynomialVerifier::new(50, 2);
    let seed = Polynomial::from_vec(vec![UNIT, UNIT, UNIT, UNIT, UNIT], 2);
    let combination: Vec<usize> = vec![2];
    if let Some(found) = minimize_polynomial_coefficients(seed, &combination, &verifier) {
        // The recorded polynomial passed the verifier immediately
        // before its final decrement, and it carries a coefficient
        // below the boundary tolerance.
        assert!(verifier.test_polynomial(&found));
        assert!(!found.is_polynomial_nonnegative_with_threshold(-104857));
        assert_eq!(found.len(), 5);
        assert_eq!(found.get_size(), 2);
    }
}

#[test]
fn test_minimizer_discards_hopeless_seed() {
    // A seed the verifier rejects at every step never records a
    // last-known-good polynomial.
    let verifier = PolynomialVerifier::new(20, 1);
    let seed = Polynomial::from_vec(vec![-3 * UNIT, -3 * UNIT, -3 * UNIT], 1);
    let combination: Vec<usize> = vec![0, 1, 2];
    assert!(minimize_polynomial_coefficients(seed, &combination, &verifier).is_none());
}

#[test]
fn test_mutate_coefficients_yields_verified_boundary_polynomials() {
    let verifier = PolynomialVerifier::new(20, 1);
    let seeds = vec![
        Polynomial::from_vec(vec![UNIT, UNIT, UNIT], 1),
        Polynomial::from_vec(vec![2 * UNIT, UNIT, UNIT], 1),
    ];
    let combination: Vec<usize> = vec![1];
    let results = mutate_coefficients(seeds, &combination, &verifier);
    for p in &results {
        assert!(verifier.test_polynomial(p));
        assert!(!p.is_polynomial_nonnegative_with_threshold(-104857));
    }
}

#[test]
fn test_generate_mutated_polynomials_shapes() {
    let base = Polynomial::from_vec(vec![UNIT, UNIT, UNIT, UNIT, UNIT], 2);
    let mutated = generate_mutated_polynomials(&base, 3);
    assert_eq!(mutated.len(), 3);
    for p in &mutated {
        assert_eq!(p.len(), 5);
        assert_eq!(p.get_size(), 2);
    }
}

#[test]
fn test_current_state_combinations() {
    let state = CurrentState::new(4, 0);
    assert_eq!(state.combinations_left.len(), 4);
    assert_eq!(state.combinations_left[0].len(), 1);
    assert_eq!(state.combinations_left[1].len(), 4);
    assert_eq!(state.combinations_left[2].len(), 6);
    assert_eq!(state.combinations_left[3].len(), 4);
    assert_eq!(state.combinations_left[2][0], vec![0, 1]);
    assert_eq!(state.combinations_left[2][5], vec![2, 3]);
}

#[test]
fn test_remove_combination() {
    let mut state = CurrentState::new(3, 0);
    assert_eq!(state.combinations_left[1].len(), 3);
    let target: Vec<usize> = vec![1];
    state.remove_combination(&target, 1);
    assert_eq!(state.combinations_left[1].len(), 2);
    assert_eq!(state.combinations_left[1][0], vec![0]);
    assert_eq!(state.combinations_left[1][1], vec![2]);
    // The other groups stay as they were.
    assert_eq!(state.combinations_left[2].len(), 3);
}

#[test]
fn test_finish_generation() {
    let mut state = CurrentState::new(3, 0);
    state
        .interesting_polynomials
        .push(Polynomial::from_vec(vec![2 * UNIT, 0, -UNIT, UNIT, UNIT], 2));
    state
        .interesting_polynomials
        .push(Polynomial::from_vec(vec![2 * UNIT, 0, UNIT, UNIT, UNIT], 2));
    state.finish_generation();
    assert_eq!(state.current_generation, 1);
    assert_eq!(state.interesting_polynomials.len(), 1);
    assert_eq!(state.starting_mutated_polynomials.len(), 1);
    assert_eq!(
        state.interesting_polynomials[0],
        Polynomial::from_vec(vec![2 * UNIT, 0, -UNIT, UNIT, UNIT], 2)
    );
}

#[test]
fn test_process_combination_consumes_subset() {
    let verifier = PolynomialVerifier::new(10, 1);
    let mut state = CurrentState::new(3, 0);
    state
        .starting_mutated_polynomials
        .push(Polynomial::from_vec(vec![UNIT, UNIT, UNIT], 1));
    let combination: Vec<usize> = vec![0];
    process_combination(&mut state, &combination, 1, &verifier);
    assert_eq!(state.combinations_left[1].len(), 2);
    for p in &state.interesting_polynomials {
        assert!(verifier.test_polynomial(p));
    }
}

#[test]
fn test_mutate_polynomial_runs() {
    let base = Polynomial::from_vec(vec![UNIT, UNIT], 1);
    let found = mutate_polynomial(base, 3, 2, 1);
    for p in &found {
        assert_eq!(p.len(), 2);
        assert_eq!(p.get_size(), 1);
    }
}

#[test]
fn test_continue_mutating_polynomial_runs() {
    let mut state = CurrentState::new(2, 0);
    state
        .starting_mutated_polynomials
        .push(Polynomial::from_vec(vec![UNIT, UNIT], 1));
    let found = continue_mutating_polynomial(state, 3);
    for p in &found {
        assert_eq!(p.len(), 2);
    }
}

#[test]
fn test_minimizer_finds_exact_boundary() {
    // With no random circulants the corpus holds only the identity
    // probe, so the whole run is deterministic: the middle coefficient
    // escapes the extreme-coefficient walk, and the identity probe
    // rejects exactly when the coefficient sum turns negative.  The
    // halving descent lands exactly on the boundary.
    let verifier = PolynomialVerifier::new(0, 1);
    let seed = Polynomial::from_vec(vec![UNIT, UNIT, UNIT], 1);
    let combination: Vec<usize> = vec![1];
    let found = minimize_polynomial_coefficients(seed, &combination, &verifier)
        .expect("the boundary polynomial fails the tolerance check");
    assert_eq!(found, Polynomial::from_vec(vec![UNIT, -2 * UNIT, UNIT], 1));
}

#[test]
fn test_minimizer_discards_nonnegative_outcome() {
    // Descending the trailing coefficient is stopped by the
    // extreme-coefficient walk at zero, a fully non-negative outcome,
    // which carries no boundary information and is discarded.
    let verifier = PolynomialVerifier::new(0, 1);
    let seed = Polynomial::from_vec(vec![2 * UNIT, 3 * UNIT], 1);
    let combination: Vec<usize> = vec![1];
    assert!(minimize_polynomial_coefficients(seed, &combination, &verifier).is_none());
}

#[test]
fn test_mutate_coefficients_collapses_duplicates() {
    // Two seeds walk to the same boundary polynomial; the collapse
    // keeps one.
    let verifier = PolynomialVerifier::new(0, 1);
    let seeds = vec![
        Polynomial::from_vec(vec![UNIT, UNIT, UNIT], 1),
        Polynomial::from_vec(vec![UNIT, 2 * UNIT, UNIT], 1),
    ];
    let combination: Vec<usize> = vec![1];
    let results = mutate_coefficients(seeds, &combination, &verifier);
    assert_eq!(results.len(), 1);
    assert_eq!(results[0], Polynomial::from_vec(vec![UNIT, -2 * UNIT, UNIT], 1));
}

#[test]
fn test_process_combination_grows_on_qualifying_seed() {
    // A seed that passes the verifier and already breaches the
    // tolerance is guaranteed to contribute a boundary candidate.
    let verifier = PolynomialVerifier::new(0, 1);
    let mut state = CurrentState::new(3, 0);
    state
        .starting_mutated_polynomials
        .push(Polynomial::from_vec(vec![UNIT, -UNIT, UNIT], 1));
    let combination: Vec<usize> = vec![1];
    let before = state.interesting_polynomials.len();
    process_combination(&mut state, &combination, 1, &verifier);
    assert!(state.interesting_polynomials.len() > before);
}

#[test]
fn test_continue_keeps_accumulated_candidates() {
    // Resuming never drops the checkpoint's accumulated candidates:
    // the result collapses them together with the new batches.
    let mut state = CurrentState::new(2, 0);
    state
        .starting_mutated_polynomials
        .push(Polynomial::from_vec(vec![UNIT, UNIT], 1));
    state
        .interesting_polynomials
        .push(Polynomial::from_vec(vec![UNIT, -UNIT], 1));
    let found = continue_mutating_polynomial(state, 2);
    assert!(!found.is_empty());
}
