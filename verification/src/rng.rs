use vstd::prelude::*;
use rand::Rng;
use rand::seq::IteratorRandom;
use crate::polynomial::Polynomial;

verus! {

/// Relies on `rand::Rng::gen_range` over a half-open `i64` range: it
/// returns a value of the range, drawn from the thread-local
/// generator, and panics only on an empty range, which the
/// precondition excludes.  Nothing more is promised of the value: two
/// calls on the same bounds may differ.
#[verifier::external_body]
pub(crate) fn rand_range_i64(lo: i64, hi: i64) -> (r: i64)
    requires
        lo < hi,
    ensures
        lo <= r < hi,
{
    rand::thread_rng().gen_range(lo..hi)
}

/// Relies on `rand::seq::IteratorRandom::choose_multiple`: it returns
/// `min(amount, len)` elements sampled from the iterated collection,
/// each one a clone of some input element.  Which elements come back,
/// and in what order, is not promised.
#[verifier::external_body]
pub(crate) fn sample_polynomials(polynomials: &Vec<Polynomial>, amount: usize) -> (r: Vec<
    Polynomial,
>)
    ensures
        r@.len() == if amount <= polynomials@.len() {
            amount as nat
        } else {
            polynomials@.len()
        },
        forall|i: int| #![trigger r@[i]]
            0 <= i < r@.len() ==> exists|j: int|
                0 <= j < polynomials@.len() && r@[i]@ == #[trigger] polynomials@[j]@,
{
    let mut rng = rand::thread_rng();
    let sampled = polynomials.iter().choose_multiple(&mut rng, amount);
    sampled.into_iter().cloned().collect()
}

} // verus!
