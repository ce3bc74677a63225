//! A search-and-verification engine for real polynomials that keep
//! every entry of p(M) non-negative when evaluated at non-negative
//! square matrices M.  Coefficients are fixed-point numbers (see
//! `polynomial::UNIT`); probe matrices carry bounded non-negative
//! integer entries.  A probabilistic verifier tests candidates against
//! a cached probe corpus, a halving-step minimizer walks seeds towards
//! the boundary of the nonnegativity-preserving cone, a collapse pass
//! prunes dominated candidates, and a checkpointed generation driver
//! sweeps every coefficient-index subset.

pub mod modes;
pub mod polynomial;
pub mod matrix;
pub mod eval;
pub mod collapse;
pub mod matrix_generator;
pub mod polynomial_verifier;
pub mod current_state;
pub mod search;
pub mod fuzz_polynomial;
mod rng;
mod combos;
