use vstd::prelude::*;

verus! {

/// The run modes the search engine can be started in: test a single
/// polynomial against the probe corpus, mutate a starting polynomial,
/// sweep the whole coefficient space, or resume from a saved state.
pub enum PolynomialMode {
    TestPolynomial,
    MutatePolynomial,
    MapSpace,
    ReturnState,
    Error,
}

/// The mode that a numeric configuration value selects.
pub open spec fn spec_mode_of(val: usize) -> PolynomialMode {
    if val == 1 {
        PolynomialMode::TestPolynomial
    } else if val == 2 {
        PolynomialMode::MutatePolynomial
    } else if val == 3 {
        PolynomialMode::MapSpace
    } else if val == 4 {
        PolynomialMode::ReturnState
    } else {
        PolynomialMode::Error
    }
}

/// Decodes the numeric mode field of the run configuration.
pub fn i32_to_polynomial_mode(val: usize) -> (mode: PolynomialMode)
    ensures
        mode == spec_mode_of(val),
{
    match val {
        1 => PolynomialMode::TestPolynomial,
        2 => PolynomialMode::MutatePolynomial,
        3 => PolynomialMode::MapSpace,
        4 => PolynomialMode::ReturnState,
        _ => PolynomialMode::Error,
    }
}

} // verus!
