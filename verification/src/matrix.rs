use vstd::prelude::*;
use crate::polynomial::MAX_SIZE;

verus! {

/// Probe-matrix entries are plain non-negative integers, bounded so
/// that every dot product in a matrix multiplication and every
/// polynomial evaluation fits comfortably inside 128-bit arithmetic.
pub const ENTRY_BOUND: i64 = 576460752303423488;

/// A square probe matrix with non-negative, bounded integer entries,
/// stored as rows.
pub struct Matrix {
    rows: Vec<Vec<i64>>,
}

impl View for Matrix {
    type V = Seq<Seq<int>>;

    closed spec fn view(&self) -> Seq<Seq<int>> {
        self.rows@.map_values(|r: Vec<i64>| r@.map_values(|c: i64| c as int))
    }
}

/// Well-formedness of a square matrix model: square shape, bounded
/// side length, and every entry in `[0, ENTRY_BOUND]`.
pub open spec fn spec_wf_matrix(m: Seq<Seq<int>>) -> bool {
    &&& 1 <= m.len() <= MAX_SIZE
    &&& forall|i: int| 0 <= i < m.len() ==> #[trigger] m[i].len() == m.len()
    &&& forall|i: int, j: int|
        0 <= i < m.len() && 0 <= j < m.len() ==> 0 <= #[trigger] m[i][j] <= ENTRY_BOUND
}

/// The first `k` terms of the dot product of row `i` of `a` with
/// column `j` of `b`.
pub open spec fn spec_dot(a: Seq<Seq<int>>, b: Seq<Seq<int>>, i: int, j: int, k: nat) -> int
    decreases k,
{
    if k == 0 {
        0
    } else {
        spec_dot(a, b, i, j, (k - 1) as nat) + a[i][k - 1] * b[k - 1][j]
    }
}

/// Entry `(i, j)` of the mathematical matrix product of `a` and `b`.
pub open spec fn spec_product_entry(a: Seq<Seq<int>>, b: Seq<Seq<int>>, i: int, j: int) -> int {
    spec_dot(a, b, i, j, a.len())
}

/// The identity matrix model of side `n`.
pub open spec fn spec_identity(n: nat) -> Seq<Seq<int>> {
    Seq::new(
        n,
        |i: int|
            Seq::new(
                n,
                |j: int|
                    if i == j {
                        1int
                    } else {
                        0int
                    },
            ),
    )
}

/// The identity with rows `0` and `swap` exchanged, as a model.
pub open spec fn spec_row_swapped(n: nat, swap: int) -> Seq<Seq<int>> {
    Seq::new(
        n,
        |i: int|
            Seq::new(
                n,
                |j: int|
                    if (i == 0 && j == swap) || (i == swap && j == 0) || (i != 0 && i != swap && i
                        == j) {
                        1int
                    } else {
                        0int
                    },
            ),
    )
}

/// The mathematical matrix product of `a` and `b`.
pub open spec fn spec_product(a: Seq<Seq<int>>, b: Seq<Seq<int>>) -> Seq<Seq<int>> {
    Seq::new(a.len(), |i: int| Seq::new(a.len(), |j: int| spec_product_entry(a, b, i, j)))
}

/// The product `a * b` stays representable: no entry exceeds
/// `ENTRY_BOUND`.
pub open spec fn spec_can_extend(a: Seq<Seq<int>>, b: Seq<Seq<int>>) -> bool {
    forall|i: int, j: int|
        0 <= i < a.len() && 0 <= j < a.len() ==> #[trigger] spec_product_entry(a, b, i, j)
            <= ENTRY_BOUND as int
}

/// The list of cached successive powers of `m`, starting at the
/// identity (power zero) and stopping early when the next power would
/// overflow the entry bound.
pub open spec fn spec_power_list(m: Seq<Seq<int>>, count: nat) -> Seq<Seq<Seq<int>>>
    decreases count,
{
    if count <= 1 {
        seq![spec_identity(m.len())]
    } else {
        let prev = spec_power_list(m, (count - 1) as nat);
        if spec_can_extend(prev.last(), m) {
            prev.push(spec_product(prev.last(), m))
        } else {
            prev
        }
    }
}

/// Once a power list has stalled at the entry bound, asking for more
/// powers adds nothing.
pub proof fn lemma_power_list_stalls(m: Seq<Seq<int>>, t: nat, count: nat)
    requires
        1 <= t <= count,
        !spec_can_extend(spec_power_list(m, t).last(), m),
    ensures
        spec_power_list(m, count) == spec_power_list(m, t),
    decreases count,
{
    if count > t {
        lemma_power_list_stalls(m, t, (count - 1) as nat);
    }
}

/// Partial dot products of well-formed matrices stay within
/// `[0, k * ENTRY_BOUND^2]`.
pub proof fn lemma_dot_bounds(a: Seq<Seq<int>>, b: Seq<Seq<int>>, i: int, j: int, k: nat)
    requires
        spec_wf_matrix(a),
        spec_wf_matrix(b),
        a.len() == b.len(),
        0 <= i < a.len(),
        0 <= j < a.len(),
        k <= a.len(),
    ensures
        0 <= spec_dot(a, b, i, j, k) <= k * (ENTRY_BOUND as int) * (ENTRY_BOUND as int),
    decreases k,
{
    if k == 0 {
    } else {
        lemma_dot_bounds(a, b, i, j, (k - 1) as nat);
        let x = a[i][k - 1];
        let y = b[k - 1][j];
        assert(0 <= x * y <= (ENTRY_BOUND as int) * (ENTRY_BOUND as int)) by (nonlinear_arith)
            requires
                0 <= x <= ENTRY_BOUND as int,
                0 <= y <= ENTRY_BOUND as int,
        ;
        assert((k - 1) * (ENTRY_BOUND as int) * (ENTRY_BOUND as int) + (ENTRY_BOUND as int) * (
        ENTRY_BOUND as int) == k * (ENTRY_BOUND as int) * (ENTRY_BOUND as int)) by (nonlinear_arith)
        ;
    }
}

impl Matrix {
    /// Well-formedness of the stored matrix.
    pub open spec fn wf(&self) -> bool {
        spec_wf_matrix(self@)
    }

    /// The side length.
    pub fn size(&self) -> (r: usize)
        ensures
            r as nat == self@.len(),
    {
        self.rows.len()
    }

    /// Reads entry `(i, j)`.
    pub fn at(&self, i: usize, j: usize) -> (r: i64)
        requires
            self.wf(),
            (i as nat) < self@.len(),
            (j as nat) < self@.len(),
        ensures
            r as int == self@[i as int][j as int],
    {
        proof {
            assert(self@[i as int] == self.rows@[i as int]@.map_values(|c: i64| c as int));
        }
        let r = self.rows[i][j];
        proof {
            assert(self@[i as int][j as int] == self.rows@[i as int]@[j as int] as int);
        }
        r
    }

    /// The identity matrix.
    pub fn identity(size: usize) -> (r: Matrix)
        requires
            1 <= size <= MAX_SIZE,
        ensures
            r.wf(),
            r@.len() == size as nat,
            r@ == spec_identity(size as nat),
            forall|i: int, j: int|
                0 <= i < size && 0 <= j < size ==> #[trigger] r@[i][j] == if i == j {
                    1int
                } else {
                    0int
                },
    {
        let mut rows: Vec<Vec<i64>> = Vec::new();
        let mut i: usize = 0;
        while i < size
            invariant
                i <= size,
                rows@.len() == i as nat,
                forall|a: int| 0 <= a < i ==> #[trigger] rows@[a]@.len() == size as nat,
                forall|a: int, b: int|
                    0 <= a < i && 0 <= b < size ==> #[trigger] rows@[a]@[b] == if a == b {
                        1i64
                    } else {
                        0i64
                    },
            decreases size - i,
        {
            let mut row: Vec<i64> = Vec::new();
            let mut j: usize = 0;
            while j < size
                invariant
                    j <= size,
                    row@.len() == j as nat,
                    forall|b: int|
                        0 <= b < j ==> #[trigger] row@[b] == if i == b {
                            1i64
                        } else {
                            0i64
                        },
                decreases size - j,
            {
                if i == j {
                    row.push(1);
                } else {
                    row.push(0);
                }
                j += 1;
            }
            rows.push(row);
            i += 1;
        }
        let r = Matrix { rows };
        proof {
            assert(r@ =~~= spec_identity(size as nat));
        }
        r
    }

    /// The identity matrix with rows `0` and `swap` exchanged: a cheap
    /// deterministic permutation probe.
    pub fn row_swapped(size: usize, swap: usize) -> (r: Matrix)
        requires
            1 <= size <= MAX_SIZE,
            swap < size,
        ensures
            r.wf(),
            r@.len() == size as nat,
            r@ == spec_row_swapped(size as nat, swap as int),
            forall|i: int, j: int|
                0 <= i < size && 0 <= j < size ==> #[trigger] r@[i][j] == if (i == 0 && j == swap)
                    || (i == swap && j == 0) || (i != 0 && i != swap && i == j) {
                    1int
                } else {
                    0int
                },
    {
        let mut rows: Vec<Vec<i64>> = Vec::new();
        let mut i: usize = 0;
        while i < size
            invariant
                i <= size,
                swap < size,
                rows@.len() == i as nat,
                forall|a: int| 0 <= a < i ==> #[trigger] rows@[a]@.len() == size as nat,
                forall|a: int, b: int|
                    0 <= a < i && 0 <= b < size ==> #[trigger] rows@[a]@[b] == if (a == 0 && b
                        == swap) || (a == swap && b == 0) || (a != 0 && a != swap && a == b) {
                        1i64
                    } else {
                        0i64
                    },
            decreases size - i,
        {
            let target: usize = if i == 0 {
                swap
            } else if i == swap {
                0
            } else {
                i
            };
            let mut row: Vec<i64> = Vec::new();
            let mut j: usize = 0;
            while j < size
                invariant
                    j <= size,
                    target < size,
                    row@.len() == j as nat,
                    forall|b: int|
                        0 <= b < j ==> #[trigger] row@[b] == if b == target {
                            1i64
                        } else {
                            0i64
                        },
                decreases size - j,
            {
                if j == target {
                    row.push(1);
                } else {
                    row.push(0);
                }
                j += 1;
            }
            rows.push(row);
            i += 1;
        }
        let r = Matrix { rows };
        proof {
            assert(r@ =~~= spec_row_swapped(size as nat, swap as int));
        }
        r
    }

    /// The fundamental circulant: the cyclic-shift permutation matrix,
    /// with a one in row `i` at column `(i + 1) mod size`.
    pub fn shift(size: usize) -> (r: Matrix)
        requires
            1 <= size <= MAX_SIZE,
        ensures
            r.wf(),
            r@.len() == size as nat,
            forall|i: int, j: int|
                0 <= i < size && 0 <= j < size ==> #[trigger] r@[i][j] == if j == ((i + 1) % (
                size as int)) {
                    1int
                } else {
                    0int
                },
    {
        let mut rows: Vec<Vec<i64>> = Vec::new();
        let mut i: usize = 0;
        while i < size
            invariant
                i <= size,
                rows@.len() == i as nat,
                forall|a: int| 0 <= a < i ==> #[trigger] rows@[a]@.len() == size as nat,
                forall|a: int, b: int|
                    0 <= a < i && 0 <= b < size ==> #[trigger] rows@[a]@[b] == if b == ((a + 1) % (
                    size as int)) {
                        1i64
                    } else {
                        0i64
                    },
            decreases size - i,
        {
            let target: usize = if i + 1 < size {
                i + 1
            } else {
                0
            };
            proof {
                if i + 1 < size {
                    vstd::arithmetic::div_mod::lemma_small_mod((i + 1) as nat, size as nat);
                } else {
                    vstd::arithmetic::div_mod::lemma_mod_self_0(size as int);
                }
                assert(target as int == (i as int + 1) % (size as int));
            }
            let mut row: Vec<i64> = Vec::new();
            let mut j: usize = 0;
            while j < size
                invariant
                    j <= size,
                    target < size,
                    row@.len() == j as nat,
                    forall|b: int|
                        0 <= b < j ==> #[trigger] row@[b] == if b == target {
                            1i64
                        } else {
                            0i64
                        },
                decreases size - j,
            {
                if j == target {
                    row.push(1);
                } else {
                    row.push(0);
                }
                j += 1;
            }
            rows.push(row);
            i += 1;
        }
        Matrix { rows }
    }

    /// Multiplies two well-formed matrices.  Returns `None` exactly
    /// when some entry of the mathematical product exceeds
    /// `ENTRY_BOUND`; the power-caching generator stops extending a
    /// power list at that point.
    pub fn mul(&self, other: &Matrix) -> (r: Option<Matrix>)
        requires
            self.wf(),
            other.wf(),
            self@.len() == other@.len(),
        ensures
            match r {
                Some(c) => {
                    &&& c.wf()
                    &&& c@.len() == self@.len()
                    &&& c@ == spec_product(self@, other@)
                    &&& spec_can_extend(self@, other@)
                },
                None => exists|i: int, j: int|
                    0 <= i < self@.len() && 0 <= j < self@.len() && #[trigger] spec_product_entry(
                        self@,
                        other@,
                        i,
                        j,
                    ) > ENTRY_BOUND as int,
            },
    {
        let n = self.rows.len();
        let mut rows: Vec<Vec<i64>> = Vec::new();
        let mut i: usize = 0;
        while i < n
            invariant
                i <= n,
                n as nat == self@.len(),
                self.wf(),
                other.wf(),
                self@.len() == other@.len(),
                rows@.len() == i as nat,
                forall|a: int| 0 <= a < i ==> #[trigger] rows@[a]@.len() == n as nat,
                forall|a: int, b: int|
                    0 <= a < i && 0 <= b < n ==> #[trigger] rows@[a]@[b] as int
                        == spec_product_entry(self@, other@, a, b),
                forall|a: int, b: int|
                    0 <= a < i && 0 <= b < n ==> 0 <= #[trigger] rows@[a]@[b] <= ENTRY_BOUND,
            decreases n - i,
        {
            let mut row: Vec<i64> = Vec::new();
            let mut j: usize = 0;
            while j < n
                invariant
                    j <= n,
                    i < n,
                    n as nat == self@.len(),
                    self.wf(),
                    other.wf(),
                    self@.len() == other@.len(),
                    row@.len() == j as nat,
                    forall|b: int|
                        0 <= b < j ==> #[trigger] row@[b] as int == spec_product_entry(
                            self@,
                            other@,
                            i as int,
                            b,
                        ),
                    forall|b: int| 0 <= b < j ==> 0 <= #[trigger] row@[b] <= ENTRY_BOUND,
                decreases n - j,
            {
                let mut acc: u128 = 0;
                let mut k: usize = 0;
                while k < n
                    invariant
                        k <= n,
                        i < n,
                        j < n,
                        n as nat == self@.len(),
                        self.wf(),
                        other.wf(),
                        self@.len() == other@.len(),
                        acc as int == spec_dot(self@, other@, i as int, j as int, k as nat),
                        acc as int <= (k as int) * (ENTRY_BOUND as int) * (ENTRY_BOUND as int),
                    decreases n - k,
                {
                    let x = self.at(i, k);
                    let y = other.at(k, j);
                    proof {
                        lemma_dot_bounds(self@, other@, i as int, j as int, k as nat);
                        assert(0 <= (x as int) * (y as int) <= (ENTRY_BOUND as int) * (
                        ENTRY_BOUND as int)) by (nonlinear_arith)
                            requires
                                0 <= x as int <= ENTRY_BOUND as int,
                                0 <= y as int <= ENTRY_BOUND as int,
                        ;
                        assert((k as int) * (ENTRY_BOUND as int) * (ENTRY_BOUND as int) + (
                        ENTRY_BOUND as int) * (ENTRY_BOUND as int) == ((k as int) + 1) * (
                        ENTRY_BOUND as int) * (ENTRY_BOUND as int)) by (nonlinear_arith);
                        assert((k as int) + 1 <= MAX_SIZE as int);
                        assert(((k as int) + 1) * (ENTRY_BOUND as int) * (ENTRY_BOUND as int) <= (
                        MAX_SIZE as int) * (ENTRY_BOUND as int) * (ENTRY_BOUND as int))
                            by (nonlinear_arith)
                            requires
                                (k as int) + 1 <= MAX_SIZE as int,
                        ;
                    }
                    acc = acc + (x as u128) * (y as u128);
                    k += 1;
                }
                if acc > ENTRY_BOUND as u128 {
                    proof {
                        assert(spec_product_entry(self@, other@, i as int, j as int)
                            > ENTRY_BOUND as int);
                    }
                    return None;
                }
                proof {
                    lemma_dot_bounds(self@, other@, i as int, j as int, self@.len());
                }
                row.push(acc as i64);
                j += 1;
            }
            rows.push(row);
            i += 1;
        }
        let r = Matrix { rows };
        proof {
            assert(r@ =~~= spec_product(self@, other@));
            assert forall|a: int, b: int|
                0 <= a < self@.len() && 0 <= b < self@.len() implies #[trigger] spec_product_entry(
                self@,
                other@,
                a,
                b,
            ) <= ENTRY_BOUND as int by {
                assert(r@[a][b] == spec_product_entry(self@, other@, a, b));
            }
        }
        Some(r)
    }

    /// Builds a matrix from explicit rows.
    pub fn from_rows(rows: Vec<Vec<i64>>) -> (r: Matrix)
        requires
            1 <= rows@.len() <= MAX_SIZE,
            forall|i: int| 0 <= i < rows@.len() ==> #[trigger] rows@[i]@.len() == rows@.len(),
            forall|i: int, j: int|
                0 <= i < rows@.len() && 0 <= j < rows@.len() ==> 0 <= #[trigger] rows@[i]@[j]
                    <= ENTRY_BOUND,
        ensures
            r.wf(),
            r@.len() == rows@.len(),
            forall|i: int, j: int|
                0 <= i < rows@.len() && 0 <= j < rows@.len() ==> #[trigger] r@[i][j]
                    == rows@[i]@[j],
    {
        let r = Matrix { rows };
        proof {
            assert forall|i: int| 0 <= i < r@.len() implies #[trigger] r@[i].len()
                == r@.len() by {}
        }
        r
    }

    /// Overwrites one entry.
    pub fn set_entry(&mut self, i: usize, j: usize, value: i64)
        requires
            old(self).wf(),
            (i as nat) < old(self)@.len(),
            (j as nat) < old(self)@.len(),
            0 <= value <= ENTRY_BOUND,
        ensures
            final(self).wf(),
            final(self)@.len() == old(self)@.len(),
            forall|a: int, b: int|
                0 <= a < old(self)@.len() && 0 <= b < old(self)@.len()
                    ==> #[trigger] final(self)@[a][b] == if a == i as int && b == j as int {
                    value as int
                } else {
                    old(self)@[a][b]
                },
    {
        let n = self.rows.len();
        let src = &self.rows[i];
        let ghost old_row = src@;
        let mut row: Vec<i64> = Vec::new();
        let mut t: usize = 0;
        proof {
            assert(self@[i as int] == self.rows@[i as int]@.map_values(|c: i64| c as int));
        }
        while t < n
            invariant
                t <= n,
                n as nat == old_row.len(),
                old_row == src@,
                (j as nat) < n as nat,
                0 <= value <= ENTRY_BOUND,
                row@.len() == t as nat,
                forall|u: int|
                    0 <= u < t ==> #[trigger] row@[u] == if u == j as int {
                        value
                    } else {
                        old_row[u]
                    },
            decreases n - t,
        {
            if t == j {
                row.push(value);
            } else {
                row.push(src[t]);
            }
            t += 1;
        }
        let ghost rows0 = self.rows@;
        self.rows.set(i, row);
        proof {
            assert forall|a: int, b: int|
                0 <= a < rows0.len() && 0 <= b < rows0.len() implies #[trigger] self@[a][b] == (
            if a == i as int && b == j as int {
                value as int
            } else {
                rows0.map_values(|r: Vec<i64>| r@.map_values(|c: i64| c as int))[a][b]
            }) by {
                assert(self@[a] == self.rows@[a]@.map_values(|c: i64| c as int));
                if a == i as int {
                    assert(self.rows@[a]@[b] == if b == j as int {
                        value
                    } else {
                        old_row[b]
                    });
                } else {
                    assert(self.rows@[a] == rows0[a]);
                }
            }
            assert forall|a: int| 0 <= a < self@.len() implies #[trigger] self@[a].len()
                == self@.len() by {
                assert(self@[a] == self.rows@[a]@.map_values(|c: i64| c as int));
                if a != i as int {
                    assert(self.rows@[a] == rows0[a]);
                    assert(rows0.map_values(|r: Vec<i64>| r@.map_values(|c: i64| c as int))[a]
                        == self@[a]);
                }
            }
        }
    }

    /// Builds the cached power list `[I, m, m^2, ...]` of up to
    /// `count` powers, stopping early when the next power would exceed
    /// the entry bound.
    pub fn power_list(&self, count: usize) -> (r: Vec<Matrix>)
        requires
            self.wf(),
            1 <= count,
        ensures
            spec_matrix_views(r@) == spec_power_list(self@, count as nat),
            spec_wf_powers(spec_matrix_views(r@), self@.len()),
            1 <= r@.len() <= count,
            forall|t: int| 0 <= t < r@.len() ==> #[trigger] r@[t].wf(),
            forall|t: int| 0 <= t < r@.len() ==> #[trigger] r@[t]@.len() == self@.len(),
    {
        let size = self.rows.len();
        let mut out: Vec<Matrix> = Vec::new();
        let first = Matrix::identity(size);
        proof {
            assert(first@ =~~= spec_identity(self@.len()));
        }
        out.push(first);
        let mut t: usize = 1;
        proof {
            assert(spec_matrix_views(out@) =~= spec_power_list(self@, 1));
        }
        while t < count
            invariant_except_break
                1 <= t <= count,
                self.wf(),
                spec_matrix_views(out@) == spec_power_list(self@, t as nat),
                out@.len() == t as nat,
                forall|u: int| 0 <= u < out@.len() ==> #[trigger] out@[u].wf(),
                forall|u: int| 0 <= u < out@.len() ==> #[trigger] out@[u]@.len() == self@.len(),
            ensures
                spec_matrix_views(out@) == spec_power_list(self@, count as nat),
                1 <= out@.len() <= count,
                forall|u: int| 0 <= u < out@.len() ==> #[trigger] out@[u].wf(),
                forall|u: int| 0 <= u < out@.len() ==> #[trigger] out@[u]@.len() == self@.len(),
            decreases count - t,
        {
            let next = out[out.len() - 1].mul(self);
            proof {
                assert(out@[out@.len() - 1]@ == spec_matrix_views(out@).last());
                assert(spec_power_list(self@, t as nat).last() == spec_matrix_views(out@).last());
            }
            match next {
                Some(m) => {
                    out.push(m);
                    proof {
                        assert(spec_matrix_views(out@) =~= spec_power_list(self@, (t + 1) as nat));
                    }
                    t += 1;
                },
                None => {
                    proof {
                        assert(!spec_can_extend(spec_power_list(self@, t as nat).last(), self@));
                        lemma_power_list_stalls(self@, t as nat, count as nat);
                    }
                    break;
                },
            }
        }
        proof {
            assert forall|t: int|
                0 <= t < spec_matrix_views(out@).len() implies spec_wf_matrix(
                #[trigger] spec_matrix_views(out@)[t],
            ) && spec_matrix_views(out@)[t].len() == self@.len() by {
                assert(spec_matrix_views(out@)[t] == out@[t]@);
                assert(out@[t].wf());
                assert(out@[t]@.len() == self@.len());
            }
        }
        out
    }
}

/// The mathematical views of a list of matrices.
pub open spec fn spec_matrix_views(s: Seq<Matrix>) -> Seq<Seq<Seq<int>>> {
    s.map_values(|m: Matrix| m@)
}

/// A usable power list: non-empty, every member a well-formed matrix
/// of side `size`.
pub open spec fn spec_wf_powers(pows: Seq<Seq<Seq<int>>>, size: nat) -> bool {
    &&& pows.len() >= 1
    &&& forall|t: int| 0 <= t < pows.len() ==> spec_wf_matrix(#[trigger] pows[t])
    &&& forall|t: int| 0 <= t < pows.len() ==> #[trigger] pows[t].len() == size
}

} // verus!
