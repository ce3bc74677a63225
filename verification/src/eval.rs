use vstd::prelude::*;
use crate::matrix::{Matrix, spec_matrix_views, spec_wf_matrix, spec_wf_powers, spec_power_list, ENTRY_BOUND};
use crate::polynomial::{Polynomial, COEFF_LIMIT, MAX_LEN};

verus! {

/// The result of evaluating a polynomial at a matrix: a square matrix
/// of wide integers (entries can exceed the probe-entry bound, but
/// never 128 bits).
pub struct Evaluated {
    rows: Vec<Vec<i128>>,
}

impl View for Evaluated {
    type V = Seq<Seq<int>>;

    closed spec fn view(&self) -> Seq<Seq<int>> {
        self.rows@.map_values(|r: Vec<i128>| r@.map_values(|c: i128| c as int))
    }
}

impl Evaluated {
    /// The side length.
    pub fn size(&self) -> (r: usize)
        ensures
            r as nat == self@.len(),
    {
        self.rows.len()
    }

    /// Reads entry `(i, j)`.
    pub fn at(&self, i: usize, j: usize) -> (r: i128)
        requires
            (i as nat) < self@.len(),
            (j as nat) < self@[i as int].len(),
        ensures
            r as int == self@[i as int][j as int],
    {
        proof {
            assert(self@[i as int] == self.rows@[i as int]@.map_values(|c: i128| c as int));
        }
        let r = self.rows[i][j];
        proof {
            assert(self@[i as int][j as int] == self.rows@[i as int]@[j as int] as int);
        }
        r
    }
}

/// Every entry of the evaluated matrix is non-negative.
pub open spec fn spec_entries_nonneg(e: Seq<Seq<int>>) -> bool {
    forall|i: int, j: int|
        0 <= i < e.len() && 0 <= j < e[i].len() ==> #[trigger] e[i][j] >= 0
}

/// True when no entry of the evaluated matrix is negative.
pub fn is_matrix_nonnegative(e: &Evaluated) -> (r: bool)
    ensures
        r == spec_entries_nonneg(e@),
{
    let n = e.size();
    let mut i: usize = 0;
    while i < n
        invariant
            i <= n,
            n as nat == e@.len(),
            forall|a: int, b: int|
                0 <= a < i && 0 <= b < e@[a].len() ==> #[trigger] e@[a][b] >= 0,
        decreases n - i,
    {
        let row_len = e.row_len(i);
        let mut j: usize = 0;
        while j < row_len
            invariant
                j <= row_len,
                i < n,
                n as nat == e@.len(),
                row_len as nat == e@[i as int].len(),
                forall|b: int| 0 <= b < j ==> #[trigger] e@[i as int][b] >= 0,
            decreases row_len - j,
        {
            if e.at(i, j) < 0 {
                return false;
            }
            j += 1;
        }
        i += 1;
    }
    true
}

/// The sum of the first `t` terms of the evaluation of `coeffs` at
/// the cached powers `pows`, at entry `(i, j)`: term `t` multiplies
/// the coefficient of power `t` (stored at index `len - 1 - t`) with
/// the cached matrix power `pows[t]`.
pub open spec fn spec_eval_partial(
    coeffs: Seq<int>,
    pows: Seq<Seq<Seq<int>>>,
    i: int,
    j: int,
    t: nat,
) -> int
    decreases t,
{
    if t == 0 {
        0
    } else {
        spec_eval_partial(coeffs, pows, i, j, (t - 1) as nat) + coeffs[coeffs.len() - t] * pows[t
            - 1][i][j]
    }
}

/// The number of terms an evaluation uses: every coefficient, as far
/// as cached powers reach.
pub open spec fn spec_eval_terms(coeffs: Seq<int>, pows: Seq<Seq<Seq<int>>>) -> nat {
    if coeffs.len() <= pows.len() {
        coeffs.len()
    } else {
        pows.len()
    }
}

/// Entry `(i, j)` of the evaluation of `coeffs` at the cached powers.
pub open spec fn spec_eval_entry(coeffs: Seq<int>, pows: Seq<Seq<Seq<int>>>, i: int, j: int) -> int {
    spec_eval_partial(coeffs, pows, i, j, spec_eval_terms(coeffs, pows))
}

/// The evaluation of `coeffs` at the cached powers leaves every entry
/// of a `size`-by-`size` result non-negative.
pub open spec fn spec_eval_nonneg(coeffs: Seq<int>, pows: Seq<Seq<Seq<int>>>, size: nat) -> bool {
    forall|i: int, j: int|
        0 <= i < size && 0 <= j < size ==> #[trigger] spec_eval_entry(coeffs, pows, i, j) >= 0
}

/// The coefficient-wise sum of two equal-length coefficient vectors.
pub open spec fn spec_add_coeffs(c1: Seq<int>, c2: Seq<int>) -> Seq<int> {
    Seq::new(c1.len(), |k: int| c1[k] + c2[k])
}

/// Evaluation is linear in the coefficients, term by term.
proof fn lemma_eval_partial_linear(
    c1: Seq<int>,
    c2: Seq<int>,
    pows: Seq<Seq<Seq<int>>>,
    i: int,
    j: int,
    t: nat,
)
    requires
        c1.len() == c2.len(),
        t <= c1.len(),
    ensures
        spec_eval_partial(spec_add_coeffs(c1, c2), pows, i, j, t) == spec_eval_partial(
            c1,
            pows,
            i,
            j,
            t,
        ) + spec_eval_partial(c2, pows, i, j, t),
    decreases t,
{
    if t == 0 {
    } else {
        lemma_eval_partial_linear(c1, c2, pows, i, j, (t - 1) as nat);
        let s = spec_add_coeffs(c1, c2);
        assert(s[s.len() - t] == c1[c1.len() - t] + c2[c2.len() - t]);
        assert((c1[c1.len() - t] + c2[c2.len() - t]) * pows[t - 1][i][j] == c1[c1.len() - t] * pows[
            t - 1][i][j] + c2[c2.len() - t] * pows[t - 1][i][j]) by (nonlinear_arith);
    }
}

/// Applying a polynomial to a probe matrix is linear in the
/// coefficients: evaluating the coefficient-wise sum of two
/// equal-length coefficient vectors at a fixed cached power list gives
/// the entry-wise sum of the two separate evaluations.
pub proof fn lemma_apply_linear(
    c1: Seq<int>,
    c2: Seq<int>,
    pows: Seq<Seq<Seq<int>>>,
    i: int,
    j: int,
)
    requires
        c1.len() == c2.len(),
    ensures
        spec_eval_entry(spec_add_coeffs(c1, c2), pows, i, j) == spec_eval_entry(c1, pows, i, j)
            + spec_eval_entry(c2, pows, i, j),
{
    let s = spec_add_coeffs(c1, c2);
    assert(s.len() == c1.len());
    lemma_eval_partial_linear(c1, c2, pows, i, j, spec_eval_terms(c1, pows));
}

impl Evaluated {
    /// The length of row `i`.
    pub fn row_len(&self, i: usize) -> (r: usize)
        requires
            (i as nat) < self@.len(),
        ensures
            r as nat == self@[i as int].len(),
    {
        proof {
            assert(self@[i as int] == self.rows@[i as int]@.map_values(|c: i128| c as int));
        }
        self.rows[i].len()
    }
}

impl Polynomial {
    /// Accumulates the linear combination of the cached matrix powers
    /// weighted by the coefficients: entry `(i, j)` of the result is
    /// the sum of `coefficient(len - 1 - t) * pows[t][i][j]` over every
    /// coefficient that a cached power reaches.
    pub fn apply_powers(&self, matrix_powers: &Vec<Matrix>) -> (r: Evaluated)
        requires
            self.wf(),
            matrix_powers@.len() >= 1,
            forall|t: int| 0 <= t < matrix_powers@.len() ==> #[trigger] matrix_powers@[t].wf(),
            forall|t: int|
                0 <= t < matrix_powers@.len() ==> #[trigger] matrix_powers@[t]@.len()
                    == self@.size,
        ensures
            r@.len() == self@.size,
            forall|i: int| 0 <= i < self@.size ==> #[trigger] r@[i].len() == self@.size,
            forall|i: int, j: int|
                0 <= i < self@.size && 0 <= j < self@.size ==> #[trigger] r@[i][j]
                    == spec_eval_entry(
                    self@.coeffs,
                    spec_matrix_views(matrix_powers@),
                    i,
                    j,
                ),
    {
        let ghost pows = spec_matrix_views(matrix_powers@);
        let size = self.get_size();
        let n = self.len();
        let terms: usize = if n <= matrix_powers.len() {
            n
        } else {
            matrix_powers.len()
        };
        proof {
            assert(terms as nat == spec_eval_terms(self@.coeffs, pows));
        }
        let mut rows: Vec<Vec<i128>> = Vec::new();
        let mut i: usize = 0;
        while i < size
            invariant
                i <= size,
                size as nat == self@.size,
                n as nat == self@.coeffs.len(),
                terms <= n,
                terms as nat <= pows.len(),
                terms as nat == spec_eval_terms(self@.coeffs, pows),
                self.wf(),
                pows == spec_matrix_views(matrix_powers@),
                forall|t: int| 0 <= t < matrix_powers@.len() ==> #[trigger] matrix_powers@[t].wf(),
                forall|t: int|
                    0 <= t < matrix_powers@.len() ==> #[trigger] matrix_powers@[t]@.len()
                        == self@.size,
                rows@.len() == i as nat,
                forall|a: int| 0 <= a < i ==> #[trigger] rows@[a]@.len() == size as nat,
                forall|a: int, b: int|
                    0 <= a < i && 0 <= b < size ==> #[trigger] rows@[a]@[b] as int
                        == spec_eval_entry(self@.coeffs, pows, a, b),
            decreases size - i,
        {
            let mut row: Vec<i128> = Vec::new();
            let mut j: usize = 0;
            while j < size
                invariant
                    j <= size,
                    i < size,
                    size as nat == self@.size,
                    n as nat == self@.coeffs.len(),
                    terms <= n,
                    terms as nat <= pows.len(),
                    terms as nat == spec_eval_terms(self@.coeffs, pows),
                    self.wf(),
                    pows == spec_matrix_views(matrix_powers@),
                    forall|t: int|
                        0 <= t < matrix_powers@.len() ==> #[trigger] matrix_powers@[t].wf(),
                    forall|t: int|
                        0 <= t < matrix_powers@.len() ==> #[trigger] matrix_powers@[t]@.len()
                            == self@.size,
                    row@.len() == j as nat,
                    forall|b: int|
                        0 <= b < j ==> #[trigger] row@[b] as int == spec_eval_entry(
                            self@.coeffs,
                            pows,
                            i as int,
                            b,
                        ),
                decreases size - j,
            {
                let mut acc: i128 = 0;
                let mut t: usize = 0;
                while t < terms
                    invariant
                        t <= terms,
                        i < size,
                        j < size,
                        size as nat == self@.size,
                        n as nat == self@.coeffs.len(),
                        terms <= n,
                        terms as nat <= pows.len(),
                        self.wf(),
                        pows == spec_matrix_views(matrix_powers@),
                        forall|u: int|
                            0 <= u < matrix_powers@.len() ==> #[trigger] matrix_powers@[u].wf(),
                        forall|u: int|
                            0 <= u < matrix_powers@.len() ==> #[trigger] matrix_powers@[u]@.len()
                                == self@.size,
                        acc as int == spec_eval_partial(self@.coeffs, pows, i as int, j as int, t as nat),
                        -((t as int) * (COEFF_LIMIT as int) * (ENTRY_BOUND as int)) <= acc as int
                            <= (t as int) * (COEFF_LIMIT as int) * (ENTRY_BOUND as int),
                    decreases terms - t,
                {
                    let c = self.coefficient(n - 1 - t);
                    let p = matrix_powers[t].at(i, j);
                    proof {
                        assert(pows[t as int] == matrix_powers@[t as int]@);
                        assert(matrix_powers@[t as int].wf());
                        assert(spec_wf_matrix(pows[t as int]));
                        assert(pows[t as int].len() == self@.size);
                        assert(p as int == pows[t as int][i as int][j as int]);
                        assert(0 <= p as int <= ENTRY_BOUND as int);
                        assert(-((COEFF_LIMIT as int) * (ENTRY_BOUND as int)) <= (c as int) * (
                        p as int) <= (COEFF_LIMIT as int) * (ENTRY_BOUND as int))
                            by (nonlinear_arith)
                            requires
                                -COEFF_LIMIT <= c as int <= COEFF_LIMIT,
                                0 <= p as int <= ENTRY_BOUND as int,
                        ;
                        assert((t as int) * (COEFF_LIMIT as int) * (ENTRY_BOUND as int) + (
                        COEFF_LIMIT as int) * (ENTRY_BOUND as int) == ((t as int) + 1) * (
                        COEFF_LIMIT as int) * (ENTRY_BOUND as int)) by (nonlinear_arith);
                        assert(((t as int) + 1) * (COEFF_LIMIT as int) * (ENTRY_BOUND as int) <= (
                        MAX_LEN as int) * (COEFF_LIMIT as int) * (ENTRY_BOUND as int))
                            by (nonlinear_arith)
                            requires
                                (t as int) + 1 <= MAX_LEN as int,
                        ;
                        assert(self@.coeffs[n - 1 - t] == self@.coeffs[self@.coeffs.len() - (t
                            + 1)]);
                    }
                    acc = acc + (c as i128) * (p as i128);
                    t += 1;
                }
                row.push(acc);
                j += 1;
            }
            rows.push(row);
            i += 1;
        }
        Evaluated { rows }
    }

    /// Evaluates the polynomial at the cached powers and tests every
    /// entry of the result for non-negativity.
    pub fn is_polynomial_nonnegative_from_matrix_with_powers(
        &self,
        matrix_powers: &Vec<Matrix>,
    ) -> (r: bool)
        requires
            self.wf(),
            matrix_powers@.len() >= 1,
            forall|t: int| 0 <= t < matrix_powers@.len() ==> #[trigger] matrix_powers@[t].wf(),
            forall|t: int|
                0 <= t < matrix_powers@.len() ==> #[trigger] matrix_powers@[t]@.len()
                    == self@.size,
        ensures
            r == spec_eval_nonneg(self@.coeffs, spec_matrix_views(matrix_powers@), self@.size),
    {
        let e = self.apply_powers(matrix_powers);
        let r = is_matrix_nonnegative(&e);
        proof {
            let pows = spec_matrix_views(matrix_powers@);
            assert(spec_entries_nonneg(e@) == spec_eval_nonneg(self@.coeffs, pows, self@.size)) by {
                if spec_entries_nonneg(e@) {
                    assert forall|i: int, j: int|
                        0 <= i < self@.size && 0 <= j < self@.size implies #[trigger] spec_eval_entry(
                        self@.coeffs,
                        pows,
                        i,
                        j,
                    ) >= 0 by {
                        assert(e@[i][j] >= 0);
                    }
                }
            }
        }
        r
    }

    /// Evaluates the polynomial at a single probe matrix, caching as
    /// many powers of it as the entry bound allows (high-degree terms
    /// beyond a stalled power cache contribute nothing).
    pub fn apply_polynomial(&self, matrix: &Matrix) -> (r: Evaluated)
        requires
            self.wf(),
            matrix.wf(),
            matrix@.len() == self@.size,
        ensures
            r@.len() == self@.size,
            forall|i: int| 0 <= i < self@.size ==> #[trigger] r@[i].len() == self@.size,
            forall|i: int, j: int|
                0 <= i < self@.size && 0 <= j < self@.size ==> #[trigger] r@[i][j]
                    == spec_eval_entry(
                    self@.coeffs,
                    spec_power_list(matrix@, self@.coeffs.len()),
                    i,
                    j,
                ),
    {
        let powers = matrix.power_list(self.len());
        self.apply_powers(&powers)
    }

    /// Evaluates the polynomial at a single probe matrix and tests the
    /// result for non-negativity.
    pub fn is_polynomial_nonnegative_from_matrix(&self, matrix: &Matrix) -> (r: bool)
        requires
            self.wf(),
            matrix.wf(),
            matrix@.len() == self@.size,
        ensures
            r == spec_eval_nonneg(
                self@.coeffs,
                spec_power_list(matrix@, self@.coeffs.len()),
                self@.size,
            ),
    {
        let powers = matrix.power_list(self.len());
        self.is_polynomial_nonnegative_from_matrix_with_powers(&powers)
    }
}

} // verus!
