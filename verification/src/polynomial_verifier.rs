use vstd::prelude::*;
use crate::eval::spec_eval_nonneg;
use crate::matrix::{spec_wf_matrix, spec_wf_powers};
use crate::matrix::{Matrix, spec_matrix_views, spec_power_list, spec_identity, spec_row_swapped};
use crate::matrix_generator::{generate_circulant_matrices, spec_circulant_family};
use crate::polynomial::{
    Polynomial, PolyView, spec_all_at_least, spec_first_last_negative,
    lemma_first_last_negative_not_nonnegative, MAX_SIZE,
};

verus! {

/// How many successive powers of each random circulant probe the
/// verifier caches: evaluating thousands of candidates against one
/// probe then needs one multiply-and-cache per probe, not a fresh
/// exponentiation per candidate.
pub const CACHED_POWERS: usize = 16;

/// Owns an immutable probe corpus and answers whether a candidate
/// polynomial plausibly preserves non-negativity on it.  The
/// deterministic structural probes (the identity and the row-swap
/// permutations) are kept as matrices and evaluated at each
/// candidate's full length; the randomized circulant probes are cached
/// as power lists.
pub struct PolynomialVerifier {
    structural: Vec<Matrix>,
    matrices: Vec<Vec<Matrix>>,
    size: usize,
}

impl PolynomialVerifier {
    /// The side length of the probe matrices.
    pub closed spec fn spec_size(&self) -> nat {
        self.size as nat
    }

    /// The structural probe matrices, as mathematical matrices.
    pub closed spec fn spec_structural(&self) -> Seq<Seq<Seq<int>>> {
        self.structural@.map_values(|m: Matrix| m@)
    }

    /// The cached circulant power lists of the probe corpus, as
    /// mathematical matrices.
    pub closed spec fn spec_families(&self) -> Seq<Seq<Seq<Seq<int>>>> {
        self.matrices@.map_values(|fam: Vec<Matrix>| spec_matrix_views(fam@))
    }

    /// A usable corpus: at least one structural probe, each a
    /// well-formed matrix of the right side length, and every cached
    /// family a well-formed power list of the right side length.
    pub open spec fn wf(&self) -> bool {
        &&& 1 <= self.spec_size() <= MAX_SIZE
        &&& self.spec_structural().len() >= 1
        &&& forall|i: int|
            0 <= i < self.spec_structural().len() ==> spec_wf_matrix(
                #[trigger] self.spec_structural()[i],
            ) && self.spec_structural()[i].len() == self.spec_size()
        &&& forall|f: int|
            0 <= f < self.spec_families().len() ==> spec_wf_powers(
                #[trigger] self.spec_families()[f],
                self.spec_size(),
            )
    }

    /// The decision the verifier gives for a polynomial: fully
    /// non-negative polynomials always pass; polynomials that the
    /// extreme-coefficient check rejects always fail; everything else
    /// passes exactly when every structural probe (evaluated over the
    /// candidate's full power range) and every cached circulant power
    /// list yields a non-negative evaluation.
    pub open spec fn spec_test(&self, p: PolyView) -> bool {
        spec_all_at_least(p.coeffs, 0) || (!spec_first_last_negative(p.coeffs, p.size) && (forall|
            i: int,
        |
            0 <= i < self.spec_structural().len() ==> spec_eval_nonneg(
                p.coeffs,
                spec_power_list(#[trigger] self.spec_structural()[i], p.coeffs.len()),
                p.size,
            )) && (forall|f: int|
            0 <= f < self.spec_families().len() ==> spec_eval_nonneg(
                p.coeffs,
                #[trigger] self.spec_families()[f],
                p.size,
            )))
    }

    /// Builds the probe corpus once: the identity, the row-swap
    /// permutation probes, and `number_of_matrices_to_verify` random
    /// circulant probes cached as power lists.
    pub fn new(number_of_matrices_to_verify: usize, matrix_size: usize) -> (r: PolynomialVerifier)
        requires
            1 <= matrix_size <= MAX_SIZE,
        ensures
            r.wf(),
            r.spec_size() == matrix_size as nat,
            r.spec_structural().len() == matrix_size as nat,
            r.spec_structural()[0] == spec_identity(matrix_size as nat),
            forall|i: int|
                1 <= i < matrix_size ==> #[trigger] r.spec_structural()[i] == spec_row_swapped(
                    matrix_size as nat,
                    i,
                ),
            r.spec_families().len() == number_of_matrices_to_verify as nat,
            forall|f: int|
                0 <= f < r.spec_families().len() ==> spec_circulant_family(
                    #[trigger] r.spec_families()[f],
                    matrix_size as nat,
                    CACHED_POWERS as nat,
                ),
    {
        let mut structural: Vec<Matrix> = Vec::new();
        structural.push(Matrix::identity(matrix_size));
        let mut i: usize = 1;
        while i < matrix_size
            invariant
                1 <= i <= matrix_size,
                1 <= matrix_size <= MAX_SIZE,
                structural@.len() == i as nat,
                structural@[0]@ == spec_identity(matrix_size as nat),
                forall|g: int|
                    1 <= g < i ==> (#[trigger] structural@[g]@) == spec_row_swapped(
                        matrix_size as nat,
                        g,
                    ),
                forall|g: int|
                    0 <= g < i ==> (#[trigger] structural@[g]).wf() && structural@[g]@.len()
                        == matrix_size as nat,
            decreases matrix_size - i,
        {
            structural.push(Matrix::row_swapped(matrix_size, i));
            i += 1;
        }
        let matrices = generate_circulant_matrices(
            number_of_matrices_to_verify,
            matrix_size,
            CACHED_POWERS,
        );
        let r = PolynomialVerifier { structural, matrices, size: matrix_size };
        proof {
            assert forall|g: int|
                0 <= g < r.spec_structural().len() implies spec_wf_matrix(
                #[trigger] r.spec_structural()[g],
            ) && r.spec_structural()[g].len() == matrix_size as nat by {
                assert(r.spec_structural()[g] == r.structural@[g]@);
                assert(r.structural@[g].wf());
            }
            assert forall|f: int|
                0 <= f < r.spec_families().len() implies spec_wf_powers(
                #[trigger] r.spec_families()[f],
                matrix_size as nat,
            ) && spec_circulant_family(
                r.spec_families()[f],
                matrix_size as nat,
                CACHED_POWERS as nat,
            ) by {
                assert(r.spec_families()[f] == spec_matrix_views(r.matrices@[f]@));
            }
            assert(r.spec_structural()[0] == r.structural@[0]@);
        }
        r
    }

    /// Decides, in a cascade of cheap-to-expensive checks, whether the
    /// polynomial plausibly preserves non-negativity on the probe
    /// corpus: accept fully non-negative polynomials outright, reject
    /// on the extreme-coefficient walk, then evaluate every structural
    /// probe at the candidate's full power range and every cached
    /// circulant power list, rejecting on the first negative entry.
    /// The answer is sound only with respect to the tested probes.
    pub fn test_polynomial(&self, polynomial: &Polynomial) -> (r: bool)
        requires
            self.wf(),
            polynomial.wf(),
            polynomial@.size == self.spec_size(),
        ensures
            r == self.spec_test(polynomial@),
    {
        if polynomial.is_polynomial_nonnegative() {
            return true;
        }
        if polynomial.are_first_last_negative() {
            return false;
        }
        let ns = self.structural.len();
        let mut i: usize = 0;
        while i < ns
            invariant
                i <= ns,
                ns as nat == self.spec_structural().len(),
                self.wf(),
                polynomial.wf(),
                polynomial@.size == self.spec_size(),
                !spec_all_at_least(polynomial@.coeffs, 0),
                !spec_first_last_negative(polynomial@.coeffs, polynomial@.size),
                forall|g: int|
                    0 <= g < i ==> spec_eval_nonneg(
                        polynomial@.coeffs,
                        spec_power_list(
                            #[trigger] self.spec_structural()[g],
                            polynomial@.coeffs.len(),
                        ),
                        polynomial@.size,
                    ),
            decreases ns - i,
        {
            proof {
                assert(self.spec_structural()[i as int] == self.structural@[i as int]@);
                assert(spec_wf_matrix(self.spec_structural()[i as int]));
            }
            if !polynomial.is_polynomial_nonnegative_from_matrix(&self.structural[i]) {
                return false;
            }
            i += 1;
        }
        let nf = self.matrices.len();
        let mut f: usize = 0;
        while f < nf
            invariant
                f <= nf,
                nf as nat == self.spec_families().len(),
                self.wf(),
                polynomial.wf(),
                polynomial@.size == self.spec_size(),
                !spec_all_at_least(polynomial@.coeffs, 0),
                !spec_first_last_negative(polynomial@.coeffs, polynomial@.size),
                forall|g: int|
                    0 <= g < self.spec_structural().len() ==> spec_eval_nonneg(
                        polynomial@.coeffs,
                        spec_power_list(
                            #[trigger] self.spec_structural()[g],
                            polynomial@.coeffs.len(),
                        ),
                        polynomial@.size,
                    ),
                forall|g: int|
                    0 <= g < f ==> spec_eval_nonneg(
                        polynomial@.coeffs,
                        #[trigger] self.spec_families()[g],
                        polynomial@.size,
                    ),
            decreases nf - f,
        {
            proof {
                assert(self.spec_families()[f as int] == spec_matrix_views(
                    self.matrices@[f as int]@,
                ));
                assert(spec_wf_powers(self.spec_families()[f as int], self.spec_size()));
                assert forall|t: int|
                    0 <= t < self.matrices@[f as int]@.len() implies #[trigger] self.matrices@[
                f as int]@[t].wf() && self.matrices@[f as int]@[t]@.len() == polynomial@.size by {
                    assert(spec_matrix_views(self.matrices@[f as int]@)[t] == self.matrices@[
                    f as int]@[t]@);
                    assert(spec_wf_matrix(spec_matrix_views(self.matrices@[f as int]@)[t]));
                    assert(spec_matrix_views(self.matrices@[f as int]@)[t].len()
                        == self.spec_size());
                }
                assert forall|t: int|
                    0 <= t < self.matrices@[f as int]@.len() implies (#[trigger] self.matrices@[
                f as int]@[t]@).len() == polynomial@.size by {
                    assert(self.matrices@[f as int]@[t].wf());
                }
            }
            if !polynomial.is_polynomial_nonnegative_from_matrix_with_powers(&self.matrices[f]) {
                proof {
                    assert(!spec_eval_nonneg(
                        polynomial@.coeffs,
                        self.spec_families()[f as int],
                        polynomial@.size,
                    ));
                }
                return false;
            }
            f += 1;
        }
        true
    }
}

/// A fully non-negative polynomial always passes the verifier,
/// whatever the probe corpus holds.
pub proof fn lemma_nonnegative_accepted(v: &PolynomialVerifier, p: PolyView)
    requires
        spec_all_at_least(p.coeffs, 0),
    ensures
        v.spec_test(p),
{
}

/// A polynomial whose first or last `size` coefficients hold a
/// negative value (through the zero-run walks) always fails the
/// verifier: the walk lands on a negative coefficient, so the
/// polynomial is not fully non-negative either.
pub proof fn lemma_first_last_negative_rejected(v: &PolynomialVerifier, p: PolyView)
    requires
        spec_first_last_negative(p.coeffs, p.size),
    ensures
        !v.spec_test(p),
{
    lemma_first_last_negative_not_nonnegative(p.coeffs, p.size);
}

} // verus!
