use vstd::prelude::*;
use crate::eval::spec_eval_nonneg;
use crate::matrix::{
    Matrix, spec_identity, spec_power_list, spec_row_swapped, spec_wf_matrix,
};
use crate::matrix_generator::{circulant_from_weights, generate_random_matrices, WEIGHT_BOUND};
use crate::combos::combinations_of;
use crate::polynomial::{
    Polynomial, PolyView, lemma_first_last_negative_not_nonnegative, spec_all_at_least,
    spec_first_last_negative,
};
use crate::rng::rand_range_i64;

verus! {

/// The deterministic structural probe number `i` for side length
/// `size`: the identity for `i == 0`, the identity with rows `0` and
/// `i` exchanged otherwise.
pub open spec fn spec_structural_probe(size: nat, i: int) -> Seq<Seq<int>> {
    if i == 0 {
        spec_identity(size)
    } else {
        spec_row_swapped(size, i)
    }
}

/// The polynomial evaluates non-negatively at every structural probe.
pub open spec fn spec_structural_ok(p: PolyView) -> bool {
    forall|i: int|
        0 <= i < p.size ==> spec_eval_nonneg(
            p.coeffs,
            spec_power_list(#[trigger] spec_structural_probe(p.size, i), p.coeffs.len()),
            p.size,
        )
}

/// Some well-formed probe matrix of the polynomial's side length
/// witnesses a negative entry in the evaluation: a definitive,
/// checkable rejection.
pub open spec fn spec_fuzz_counterexample(p: PolyView) -> bool {
    exists|m: Seq<Seq<int>>|
        {
            &&& #[trigger] spec_wf_matrix(m)
            &&& m.len() == p.size
            &&& !spec_eval_nonneg(p.coeffs, spec_power_list(m, p.coeffs.len()), p.size)
        }
}

/// Evaluates the polynomial at the identity and at each row-swap
/// permutation probe, rejecting on the first negative entry.
fn check_simple_matrices(polynomial: &Polynomial) -> (r: bool)
    requires
        polynomial.wf(),
    ensures
        r == spec_structural_ok(polynomial@),
{
    let size = polynomial.get_size();
    let mut i: usize = 0;
    while i < size
        invariant
            i <= size,
            size as nat == polynomial@.size,
            polynomial.wf(),
            forall|k: int|
                0 <= k < i ==> spec_eval_nonneg(
                    polynomial@.coeffs,
                    spec_power_list(
                        #[trigger] spec_structural_probe(polynomial@.size, k),
                        polynomial@.coeffs.len(),
                    ),
                    polynomial@.size,
                ),
        decreases size - i,
    {
        let probe = if i == 0 {
            Matrix::identity(size)
        } else {
            Matrix::row_swapped(size, i)
        };
        proof {
            assert(probe@ == spec_structural_probe(polynomial@.size, i as int));
        }
        if !polynomial.is_polynomial_nonnegative_from_matrix(&probe) {
            return false;
        }
        i += 1;
    }
    true
}

/// Evaluates the polynomial at freshly drawn elementwise-random probe
/// matrices: a `false` answer always comes with a genuine
/// counterexample probe.
fn fuzz_random_matrices(polynomial: &Polynomial, number_of_matrices_to_fuzz: usize) -> (r: bool)
    requires
        polynomial.wf(),
    ensures
        !r ==> spec_fuzz_counterexample(polynomial@),
{
    let matrices = generate_random_matrices(number_of_matrices_to_fuzz, polynomial.get_size());
    let n = matrices.len();
    let mut k: usize = 0;
    while k < n
        invariant
            k <= n,
            n as nat == matrices@.len(),
            polynomial.wf(),
            forall|t: int| #![trigger matrices@[t]]
                0 <= t < matrices@.len() ==> matrices@[t].wf() && matrices@[t]@.len()
                    == polynomial@.size,
        decreases n - k,
    {
        if !polynomial.is_polynomial_nonnegative_from_matrix(&matrices[k]) {
            proof {
                assert(matrices@[k as int].wf());
                assert(spec_wf_matrix(matrices@[k as int]@));
                assert(spec_fuzz_counterexample(polynomial@));
            }
            return false;
        }
        k += 1;
    }
    true
}

/// Evaluates the polynomial at freshly drawn random circulant probe
/// matrices: a `false` answer always comes with a genuine
/// counterexample probe.
fn fuzz_circulant_matrices(polynomial: &Polynomial, number_of_matrices_to_fuzz: usize) -> (r: bool)
    requires
        polynomial.wf(),
    ensures
        !r ==> spec_fuzz_counterexample(polynomial@),
{
    let size = polynomial.get_size();
    let mut k: usize = 0;
    while k < number_of_matrices_to_fuzz
        invariant
            k <= number_of_matrices_to_fuzz,
            size as nat == polynomial@.size,
            polynomial.wf(),
        decreases number_of_matrices_to_fuzz - k,
    {
        let mut weights: Vec<i64> = Vec::new();
        let mut t: usize = 0;
        while t < size
            invariant
                t <= size,
                weights@.len() == t as nat,
                forall|u: int| 0 <= u < t ==> 1 <= #[trigger] weights@[u] < WEIGHT_BOUND,
            decreases size - t,
        {
            weights.push(rand_range_i64(1, WEIGHT_BOUND));
            t += 1;
        }
        let probe = circulant_from_weights(&weights);
        if !polynomial.is_polynomial_nonnegative_from_matrix(&probe) {
            proof {
                assert(spec_wf_matrix(probe@));
                assert(spec_fuzz_counterexample(polynomial@));
            }
            return false;
        }
        k += 1;
    }
    true
}

/// The stateless probabilistic verifier: accepts fully non-negative
/// polynomials outright, rejects on the extreme-coefficient walk and
/// on the structural probes, and otherwise fuzzes the polynomial
/// against freshly drawn random and circulant probe matrices.  An
/// acceptance certifies only the deterministic checks (the random
/// probes are Monte-Carlo evidence); every rejection of a candidate
/// that passed the deterministic checks is backed by a concrete
/// counterexample probe.
pub fn verify_polynomial(polynomial: &Polynomial, number_of_matrices_to_fuzz: usize) -> (r: bool)
    requires
        polynomial.wf(),
    ensures
        r ==> spec_all_at_least(polynomial@.coeffs, 0) || (!spec_first_last_negative(
            polynomial@.coeffs,
            polynomial@.size,
        ) && spec_structural_ok(polynomial@)),
        !r ==> !spec_all_at_least(polynomial@.coeffs, 0) && (spec_first_last_negative(
            polynomial@.coeffs,
            polynomial@.size,
        ) || !spec_structural_ok(polynomial@) || spec_fuzz_counterexample(polynomial@) || (exists|
            k: nat,
        |
            1 <= k < polynomial@.size && spec_fuzz_counterexample(
                PolyView {
                    coeffs: #[trigger] spec_derivative_k(polynomial@.coeffs, k),
                    size: 1,
                },
            )) || (exists|j: int|
            0 <= j < polynomial@.size && spec_fuzz_counterexample(
                #[trigger] spec_remainder(polynomial@, j),
            ))),
{
    if polynomial.is_polynomial_nonnegative() {
        return true;
    }
    if polynomial.are_first_last_negative() {
        proof {
            lemma_first_last_negative_not_nonnegative(polynomial@.coeffs, polynomial@.size);
        }
        return false;
    }
    if !check_simple_matrices(polynomial) {
        return false;
    }
    let size = polynomial.get_size();
    proof {
        assert(size <= 256);
        assert((size as int) * (size as int) <= 65536) by (nonlinear_arith)
            requires
                0 <= size as int <= 256,
        ;
    }
    {
        let square_matrix_size = size * size;
        let mut i: usize = 0;
        while i < square_matrix_size
            invariant
                polynomial.wf(),
                !spec_all_at_least(polynomial@.coeffs, 0),
            decreases square_matrix_size - i,
        {
            let zero_choices = combinations_of(square_matrix_size, i);
            let m = zero_choices.len();
            let mut c: usize = 0;
            while c < m
                invariant
                    c <= m,
                    m as nat == zero_choices@.len(),
                    polynomial.wf(),
                    !spec_all_at_least(polynomial@.coeffs, 0),
                decreases m - c,
            {
                if !fuzz_polynomial(polynomial, number_of_matrices_to_fuzz, &zero_choices[c]) {
                    return false;
                }
                c += 1;
            }
            i += 1;
        }
    }
    if !fuzz_derivatives(polynomial, number_of_matrices_to_fuzz) {
        return false;
    }
    if !fuzz_remainder_polynomials(polynomial, number_of_matrices_to_fuzz) {
        return false;
    }
    if !fuzz_random_matrices(polynomial, number_of_matrices_to_fuzz) {
        return false;
    }
    if !fuzz_circulant_matrices(polynomial, number_of_matrices_to_fuzz) {
        return false;
    }
    true
}

/// The coefficients of the classical power-rule shift: index `i - 1`
/// takes `i` times the coefficient at index `i`.
pub open spec fn spec_derivative_coeffs(coeffs: Seq<int>) -> Seq<int> {
    Seq::new((coeffs.len() - 1) as nat, |i: int| (i + 1) * coeffs[i + 1])
}

/// The coefficients after `k` successive power-rule shifts.
pub open spec fn spec_derivative_k(coeffs: Seq<int>, k: nat) -> Seq<int>
    decreases k,
{
    if k == 0 {
        coeffs
    } else {
        spec_derivative_coeffs(spec_derivative_k(coeffs, (k - 1) as nat))
    }
}

/// The `j`-th remainder polynomial: the original coefficients below
/// index `j`, zeros from index `j` on, evaluated against one-by-one
/// matrices.
pub open spec fn spec_remainder(p: PolyView, j: int) -> PolyView {
    PolyView {
        coeffs: Seq::new(
            p.coeffs.len(),
            |k: int|
                if k >= j {
                    0int
                } else {
                    p.coeffs[k]
                },
        ),
        size: 1,
    }
}

/// Builds one remainder polynomial per matrix row: the `j`-th keeps
/// the coefficients below index `j` and zeroes the rest, with the
/// matrix side length set to one.
pub fn generate_remainder_polynomials(polynomial: &Polynomial) -> (r: Vec<Polynomial>)
    requires
        polynomial.wf(),
    ensures
        r@.len() == polynomial@.size,
        forall|j: int| #![trigger r@[j]]
            0 <= j < r@.len() ==> {
                &&& r@[j].wf()
                &&& r@[j]@ == spec_remainder(polynomial@, j)
            },
{
    let size = polynomial.get_size();
    let n = polynomial.len();
    let mut out: Vec<Polynomial> = Vec::new();
    let mut j: usize = 0;
    while j < size
        invariant
            j <= size,
            size as nat == polynomial@.size,
            n as nat == polynomial@.coeffs.len(),
            polynomial.wf(),
            out@.len() == j as nat,
            forall|a: int| #![trigger out@[a]]
                0 <= a < j ==> {
                    &&& out@[a].wf()
                    &&& out@[a]@ == spec_remainder(polynomial@, a)
                },
        decreases size - j,
    {
        let mut remainder = polynomial.clone();
        remainder.set_size(1);
        let start: usize = if j < n {
            j
        } else {
            n
        };
        let mut k: usize = start;
        while k < n
            invariant
                start <= k <= n,
                start as int == if (j as int) < (n as int) {
                    j as int
                } else {
                    n as int
                },
                j < k ==> j <= k,
                n as nat == polynomial@.coeffs.len(),
                polynomial.wf(),
                remainder.wf(),
                remainder@.size == 1,
                remainder@.coeffs.len() == n as nat,
                forall|m: int|
                    0 <= m < n ==> #[trigger] remainder@.coeffs[m] == if j <= m < k {
                        0int
                    } else {
                        polynomial@.coeffs[m]
                    },
            decreases n - k,
        {
            remainder.set_coefficient(k, 0);
            k += 1;
        }
        proof {
            assert(remainder@.coeffs =~= spec_remainder(polynomial@, j as int).coeffs);
            assert(remainder@ == spec_remainder(polynomial@, j as int));
        }
        out.push(remainder);
        j += 1;
    }
    out
}

/// Fuzzes a one-by-one polynomial against freshly drawn non-negative
/// scalars: a `false` answer always comes with a counterexample probe.
fn simple_1_by_1_fuzz(polynomial: &Polynomial, number_of_matrices_to_fuzz: usize) -> (r: bool)
    requires
        polynomial.wf(),
        polynomial@.size == 1,
    ensures
        !r ==> spec_fuzz_counterexample(polynomial@),
{
    let mut k: usize = 1;
    while k < number_of_matrices_to_fuzz
        invariant
            polynomial.wf(),
            polynomial@.size == 1,
        decreases number_of_matrices_to_fuzz - k,
    {
        let entry = rand_range_i64(0, 10000);
        let mut row: Vec<i64> = Vec::new();
        row.push(entry);
        let mut rows: Vec<Vec<i64>> = Vec::new();
        rows.push(row);
        let probe = Matrix::from_rows(rows);
        if !polynomial.is_polynomial_nonnegative_from_matrix(&probe) {
            proof {
                assert(spec_wf_matrix(probe@));
                assert(spec_fuzz_counterexample(polynomial@));
            }
            return false;
        }
        k += 1;
    }
    true
}

/// Fuzzes every remainder polynomial on one-by-one probes: a `false`
/// answer names a remainder with a counterexample.
fn fuzz_remainder_polynomials(polynomial: &Polynomial, number_of_matrices_to_fuzz: usize) -> (r:
    bool)
    requires
        polynomial.wf(),
    ensures
        !r ==> exists|j: int|
            0 <= j < polynomial@.size && spec_fuzz_counterexample(
                #[trigger] spec_remainder(polynomial@, j),
            ),
{
    let remainder_polynomials = generate_remainder_polynomials(polynomial);
    let m = remainder_polynomials.len();
    let mut j: usize = 0;
    while j < m
        invariant
            j <= m,
            m as nat == polynomial@.size,
            m as nat == remainder_polynomials@.len(),
            polynomial.wf(),
            forall|a: int| #![trigger remainder_polynomials@[a]]
                0 <= a < m ==> {
                    &&& remainder_polynomials@[a].wf()
                    &&& remainder_polynomials@[a]@ == spec_remainder(polynomial@, a)
                },
        decreases m - j,
    {
        if !simple_1_by_1_fuzz(&remainder_polynomials[j], number_of_matrices_to_fuzz) {
            proof {
                assert(spec_fuzz_counterexample(spec_remainder(polynomial@, j as int)));
            }
            return false;
        }
        j += 1;
    }
    true
}

/// Walks the derivative chain with the side length pinned to one,
/// fuzzing each successive derivative on one-by-one probes.  The walk
/// stops quietly when a derivative would leave the supported
/// coefficient range; a `false` answer names a derivative stage with a
/// counterexample.
fn fuzz_derivatives(polynomial: &Polynomial, number_of_matrices_to_fuzz: usize) -> (r: bool)
    requires
        polynomial.wf(),
    ensures
        !r ==> exists|k: nat|
            1 <= k < polynomial@.size && spec_fuzz_counterexample(
                PolyView {
                    coeffs: #[trigger] spec_derivative_k(polynomial@.coeffs, k),
                    size: 1,
                },
            ),
{
    let matrix_size = polynomial.get_size();
    let mut derivative_polynomial = polynomial.clone();
    derivative_polynomial.set_size(1);
    let mut step: usize = 1;
    while step < matrix_size
        invariant
            1 <= step,
            matrix_size as nat == polynomial@.size,
            polynomial.wf(),
            derivative_polynomial.wf(),
            derivative_polynomial@.size == 1,
            derivative_polynomial@.coeffs == spec_derivative_k(
                polynomial@.coeffs,
                (step - 1) as nat,
            ),
        decreases matrix_size - step,
    {
        let len = derivative_polynomial.len();
        if len < 2 {
            return true;
        }
        let mut i: usize = 1;
        while i < len
            invariant
                1 <= i <= len,
                len as nat == derivative_polynomial@.coeffs.len(),
                derivative_polynomial.wf(),
                forall|t: int|
                    1 <= t < i ==> crate::polynomial::spec_abs(
                        t * #[trigger] derivative_polynomial@.coeffs[t],
                    ) <= crate::polynomial::COEFF_LIMIT,
            decreases len - i,
        {
            let c = derivative_polynomial.coefficient(i);
            let magnitude: i64 = if c < 0 {
                -c
            } else {
                c
            };
            if magnitude > crate::polynomial::COEFF_LIMIT / (i as i64) {
                return true;
            }
            proof {
                assert(crate::polynomial::spec_abs((i as int) * (c as int))
                    <= crate::polynomial::COEFF_LIMIT as int) by (nonlinear_arith)
                    requires
                        1 <= i as int,
                        crate::polynomial::spec_abs(c as int) == magnitude as int,
                        0 <= magnitude as int,
                        magnitude as int <= (crate::polynomial::COEFF_LIMIT as int) / (i as int),
                        crate::polynomial::COEFF_LIMIT as int > 0,
                ;
            }
            i += 1;
        }
        let next = derivative_polynomial.derivative();
        proof {
            assert(next@.coeffs =~= spec_derivative_coeffs(derivative_polynomial@.coeffs));
        }
        derivative_polynomial = next;
        if !simple_1_by_1_fuzz(&derivative_polynomial, number_of_matrices_to_fuzz) {
            proof {
                assert(derivative_polynomial@.coeffs == spec_derivative_k(
                    polynomial@.coeffs,
                    step as nat,
                ));
                assert(derivative_polynomial@ == PolyView {
                    coeffs: spec_derivative_k(polynomial@.coeffs, step as nat),
                    size: 1,
                });
            }
            return false;
        }
        step += 1;
    }
    true
}

/// Fuzzes the polynomial against elementwise-random probes drawn below
/// `bound`, with the chosen entries zeroed out first: a `false` answer
/// always comes with a counterexample probe.
fn fuzz_polynomial_distribution_worker(
    polynomial: &Polynomial,
    bound: i64,
    number_of_matrices_to_fuzz: usize,
    entries_to_zero: &Vec<usize>,
) -> (r: bool)
    requires
        polynomial.wf(),
        1 <= bound <= crate::matrix::ENTRY_BOUND,
    ensures
        !r ==> spec_fuzz_counterexample(polynomial@),
{
    let size = polynomial.get_size();
    let mut k: usize = 1;
    while k < number_of_matrices_to_fuzz
        invariant
            polynomial.wf(),
            size as nat == polynomial@.size,
            1 <= bound <= crate::matrix::ENTRY_BOUND,
        decreases number_of_matrices_to_fuzz - k,
    {
        let mut rows: Vec<Vec<i64>> = Vec::new();
        let mut a: usize = 0;
        while a < size
            invariant
                a <= size,
                1 <= size,
                1 <= bound <= crate::matrix::ENTRY_BOUND,
                rows@.len() == a as nat,
                forall|x: int| 0 <= x < a ==> #[trigger] rows@[x]@.len() == size as nat,
                forall|x: int, y: int|
                    0 <= x < a && 0 <= y < size ==> 0 <= #[trigger] rows@[x]@[y]
                        <= crate::matrix::ENTRY_BOUND,
            decreases size - a,
        {
            let mut row: Vec<i64> = Vec::new();
            let mut b: usize = 0;
            while b < size
                invariant
                    b <= size,
                    1 <= bound <= crate::matrix::ENTRY_BOUND,
                    row@.len() == b as nat,
                    forall|y: int|
                        0 <= y < b ==> 0 <= #[trigger] row@[y] <= crate::matrix::ENTRY_BOUND,
                decreases size - b,
            {
                row.push(rand_range_i64(0, bound));
                b += 1;
            }
            rows.push(row);
            a += 1;
        }
        let mut probe = Matrix::from_rows(rows);
        let zeros = entries_to_zero.len();
        let mut z: usize = 0;
        while z < zeros
            invariant
                z <= zeros,
                zeros as nat == entries_to_zero@.len(),
                probe.wf(),
                probe@.len() == size as nat,
                1 <= size,
            decreases zeros - z,
        {
            let entry = entries_to_zero[z];
            let row_ix = entry % size;
            let col_ix = entry / size;
            if col_ix < size {
                probe.set_entry(row_ix, col_ix, 0);
            }
            z += 1;
        }
        if !polynomial.is_polynomial_nonnegative_from_matrix(&probe) {
            proof {
                assert(spec_wf_matrix(probe@));
                assert(spec_fuzz_counterexample(polynomial@));
            }
            return false;
        }
        k += 1;
    }
    true
}

/// Fuzzes the polynomial with several uniform entry ranges, the chosen
/// entries zeroed: a `false` answer always comes with a counterexample
/// probe.
fn fuzz_polynomial(
    polynomial: &Polynomial,
    number_of_matrices_to_fuzz: usize,
    entries_to_zero: &Vec<usize>,
) -> (r: bool)
    requires
        polynomial.wf(),
    ensures
        !r ==> spec_fuzz_counterexample(polynomial@),
{
    if !fuzz_polynomial_distribution_worker(
        polynomial,
        10,
        number_of_matrices_to_fuzz,
        entries_to_zero,
    ) {
        return false;
    }
    if !fuzz_polynomial_distribution_worker(
        polynomial,
        1000,
        number_of_matrices_to_fuzz,
        entries_to_zero,
    ) {
        return false;
    }
    fuzz_polynomial_distribution_worker(
        polynomial,
        100000,
        number_of_matrices_to_fuzz,
        entries_to_zero,
    )
}

} // verus!
