use vstd::prelude::*;
use crate::collapse::iv;
use crate::matrix::{Matrix, spec_matrix_views, spec_power_list, spec_wf_powers, ENTRY_BOUND};
use crate::polynomial::MAX_SIZE;
use crate::rng::rand_range_i64;
use vstd::arithmetic::div_mod::lemma_mod_add_multiples_vanish;

verus! {

/// Random circulant weights are drawn from `[1, WEIGHT_BOUND)`.
pub const WEIGHT_BOUND: i64 = 100;

/// Entries of the legacy elementwise-random probe matrices are drawn
/// from `[0, RANDOM_ENTRY_BOUND)`.
pub const RANDOM_ENTRY_BOUND: i64 = 100000;

/// The circulant matrix built from a weight vector: entry `(i, j)`
/// holds the weight of the cyclic-shift power that moves `i` to `j`,
/// so the whole matrix is the weighted sum of the powers of the
/// fundamental circulant.
pub open spec fn spec_circulant(w: Seq<int>, n: nat) -> Seq<Seq<int>> {
    Seq::new(n, |i: int| Seq::new(n, |j: int| w[(j - i) % (n as int)]))
}

/// `fam` is the cached power list of some circulant matrix built from
/// a positive weight vector of length `size`.
pub open spec fn spec_circulant_family(fam: Seq<Seq<Seq<int>>>, size: nat, powers: nat) -> bool {
    exists|w: Seq<int>|
        {
            &&& w.len() == size
            &&& (forall|t: int| 0 <= t < w.len() ==> 1 <= #[trigger] w[t] < WEIGHT_BOUND)
            &&& fam == spec_power_list(#[trigger] spec_circulant(w, size), powers)
        }
}

/// Builds the circulant matrix of a positive weight vector.
pub(crate) fn circulant_from_weights(weights: &Vec<i64>) -> (r: Matrix)
    requires
        1 <= weights@.len() <= MAX_SIZE,
        forall|t: int| 0 <= t < weights@.len() ==> 1 <= #[trigger] weights@[t] <= ENTRY_BOUND,
    ensures
        r.wf(),
        r@.len() == weights@.len(),
        r@ == spec_circulant(iv(weights@), weights@.len()),
{
    let n = weights.len();
    let mut rows: Vec<Vec<i64>> = Vec::new();
    let mut i: usize = 0;
    while i < n
        invariant
            i <= n,
            1 <= n <= MAX_SIZE,
            n as nat == weights@.len(),
            forall|t: int| 0 <= t < weights@.len() ==> 1 <= #[trigger] weights@[t] <= ENTRY_BOUND,
            rows@.len() == i as nat,
            forall|a: int| 0 <= a < i ==> #[trigger] rows@[a]@.len() == n as nat,
            forall|a: int, b: int|
                0 <= a < i && 0 <= b < n ==> #[trigger] rows@[a]@[b] as int == iv(weights@)[(b - a)
                    % (n as int)],
        decreases n - i,
    {
        let mut row: Vec<i64> = Vec::new();
        let mut j: usize = 0;
        while j < n
            invariant
                j <= n,
                i < n,
                1 <= n <= MAX_SIZE,
                n as nat == weights@.len(),
                forall|t: int|
                    0 <= t < weights@.len() ==> 1 <= #[trigger] weights@[t] <= ENTRY_BOUND,
                row@.len() == j as nat,
                forall|b: int|
                    0 <= b < j ==> #[trigger] row@[b] as int == iv(weights@)[(b - i as int) % (
                    n as int)],
            decreases n - j,
        {
            let idx = (j + n - i) % n;
            proof {
                lemma_mod_add_multiples_vanish(j as int - i as int, n as int);
                assert(idx as int == (j as int - i as int) % (n as int));
                assert(weights@[idx as int] as int == iv(weights@)[idx as int]);
            }
            row.push(weights[idx]);
            j += 1;
        }
        rows.push(row);
        i += 1;
    }
    let r = Matrix::from_rows(rows);
    proof {
        assert(r@ =~~= spec_circulant(iv(weights@), weights@.len()));
    }
    r
}

/// Builds `number_of_matrices_to_generate` randomized circulant probe
/// families: each is the cached list of successive powers of one
/// circulant matrix built from a freshly drawn positive weight vector.
pub fn generate_circulant_matrices(
    number_of_matrices_to_generate: usize,
    matrix_size: usize,
    powers: usize,
) -> (r: Vec<Vec<Matrix>>)
    requires
        1 <= matrix_size <= MAX_SIZE,
        1 <= powers,
    ensures
        r@.len() == number_of_matrices_to_generate as nat,
        forall|f: int|
            0 <= f < r@.len() ==> {
                &&& 1 <= #[trigger] r@[f]@.len() <= powers as nat
                &&& spec_wf_powers(spec_matrix_views(r@[f]@), matrix_size as nat)
            },
        forall|f: int|
            0 <= f < r@.len() ==> spec_circulant_family(
                spec_matrix_views(#[trigger] r@[f]@),
                matrix_size as nat,
                powers as nat,
            ),
{
    let mut out: Vec<Vec<Matrix>> = Vec::new();
    let mut f: usize = 0;
    while f < number_of_matrices_to_generate
        invariant
            f <= number_of_matrices_to_generate,
            1 <= matrix_size <= MAX_SIZE,
            1 <= powers,
            out@.len() == f as nat,
            forall|g: int|
                0 <= g < out@.len() ==> {
                    &&& 1 <= #[trigger] out@[g]@.len() <= powers as nat
                    &&& spec_wf_powers(spec_matrix_views(out@[g]@), matrix_size as nat)
                },
            forall|g: int|
                0 <= g < out@.len() ==> spec_circulant_family(
                    spec_matrix_views(#[trigger] out@[g]@),
                    matrix_size as nat,
                    powers as nat,
                ),
        decreases number_of_matrices_to_generate - f,
    {
        let mut weights: Vec<i64> = Vec::new();
        let mut t: usize = 0;
        while t < matrix_size
            invariant
                t <= matrix_size,
                weights@.len() == t as nat,
                forall|u: int| 0 <= u < t ==> 1 <= #[trigger] weights@[u] < WEIGHT_BOUND,
            decreases matrix_size - t,
        {
            weights.push(rand_range_i64(1, WEIGHT_BOUND));
            t += 1;
        }
        let base = circulant_from_weights(&weights);
        let family = base.power_list(powers);
        out.push(family);
        proof {
            let w = iv(weights@);
            assert(w.len() == matrix_size as nat);
            assert(forall|u: int| 0 <= u < w.len() ==> 1 <= #[trigger] w[u] < WEIGHT_BOUND);
            assert(spec_matrix_views(out@[f as int]@) == spec_power_list(
                spec_circulant(w, matrix_size as nat),
                powers as nat,
            ));
            assert(spec_circulant_family(spec_matrix_views(out@[f as int]@), matrix_size as nat, powers as nat));
        }
        f += 1;
    }
    out
}

/// Builds `number_of_matrices_to_generate` probe matrices with
/// elementwise random entries: the legacy broad-coverage family.
pub fn generate_random_matrices(number_of_matrices_to_generate: usize, matrix_size: usize) -> (r:
    Vec<Matrix>)
    requires
        1 <= matrix_size <= MAX_SIZE,
    ensures
        r@.len() == number_of_matrices_to_generate as nat,
        forall|f: int|
            0 <= f < r@.len() ==> {
                &&& #[trigger] r@[f].wf()
                &&& r@[f]@.len() == matrix_size as nat
                &&& forall|i: int, j: int|
                    0 <= i < matrix_size && 0 <= j < matrix_size ==> 0 <= #[trigger] r@[f]@[i][j]
                        < RANDOM_ENTRY_BOUND
            },
{
    let mut out: Vec<Matrix> = Vec::new();
    let mut f: usize = 0;
    while f < number_of_matrices_to_generate
        invariant
            f <= number_of_matrices_to_generate,
            1 <= matrix_size <= MAX_SIZE,
            out@.len() == f as nat,
            forall|g: int|
                0 <= g < out@.len() ==> {
                    &&& #[trigger] out@[g].wf()
                    &&& out@[g]@.len() == matrix_size as nat
                    &&& forall|i: int, j: int|
                        0 <= i < matrix_size && 0 <= j < matrix_size ==> 0
                            <= #[trigger] out@[g]@[i][j] < RANDOM_ENTRY_BOUND
                },
        decreases number_of_matrices_to_generate - f,
    {
        let mut rows: Vec<Vec<i64>> = Vec::new();
        let mut i: usize = 0;
        while i < matrix_size
            invariant
                i <= matrix_size,
                1 <= matrix_size <= MAX_SIZE,
                rows@.len() == i as nat,
                forall|a: int| 0 <= a < i ==> #[trigger] rows@[a]@.len() == matrix_size as nat,
                forall|a: int, b: int|
                    0 <= a < i && 0 <= b < matrix_size ==> 0 <= #[trigger] rows@[a]@[b]
                        < RANDOM_ENTRY_BOUND,
            decreases matrix_size - i,
        {
            let mut row: Vec<i64> = Vec::new();
            let mut j: usize = 0;
            while j < matrix_size
                invariant
                    j <= matrix_size,
                    row@.len() == j as nat,
                    forall|b: int| 0 <= b < j ==> 0 <= #[trigger] row@[b] < RANDOM_ENTRY_BOUND,
                decreases matrix_size - j,
            {
                row.push(rand_range_i64(0, RANDOM_ENTRY_BOUND));
                j += 1;
            }
            rows.push(row);
            i += 1;
        }
        let m = Matrix::from_rows(rows);
        out.push(m);
        f += 1;
    }
    out
}

} // verus!
