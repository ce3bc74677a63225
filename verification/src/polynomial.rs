use vstd::prelude::*;
use vstd::string::StringExecFns;

verus! {

/// Coefficients are fixed-point numbers: an `i64` counts units of
/// `1 / UNIT`, so the stored value `c` stands for the real number
/// `c / UNIT`.  `UNIT` is a power of two so that the halving steps of
/// the minimizer are exact.
pub const UNIT: i64 = 1048576;

/// Two coefficients are "approximately equal" when they differ by
/// fewer than this many fixed-point units (about 1e-5).
pub const APPROX_EPS: i64 = 10;

/// Every coefficient of a well-formed polynomial stays within
/// `[-COEFF_LIMIT, COEFF_LIMIT]` (about 2048 whole units), which keeps
/// all intermediate arithmetic inside the machine integer ranges.
pub const COEFF_LIMIT: i64 = 2147483648;

/// Largest supported number of coefficients.
pub const MAX_LEN: usize = 65536;

/// Largest supported probe-matrix side length.
pub const MAX_SIZE: usize = 256;

/// The mathematical content of a polynomial: its coefficient sequence
/// (index 0 is the highest power) and the side length of the matrices
/// it is evaluated against.
pub ghost struct PolyView {
    pub coeffs: Seq<int>,
    pub size: nat,
}

/// A dense polynomial over fixed-point coefficients.  The coefficient
/// at index `i` belongs to the power `len - 1 - i`.  `size` is the side
/// length of the matrices this polynomial is evaluated against; it is
/// not generally equal to the coefficient count.
#[derive(Debug)]
pub struct Polynomial {
    coefficients: Vec<i64>,
    size: usize,
}

impl View for Polynomial {
    type V = PolyView;

    closed spec fn view(&self) -> PolyView {
        PolyView {
            coeffs: self.coefficients@.map_values(|c: i64| c as int),
            size: self.size as nat,
        }
    }
}

/// Every coefficient of `coeffs` is at least `threshold`.
pub open spec fn spec_all_at_least(coeffs: Seq<int>, threshold: int) -> bool {
    forall|i: int| 0 <= i < coeffs.len() ==> coeffs[i] >= threshold
}

/// Absolute value.
pub open spec fn spec_abs(c: int) -> int {
    if c < 0 {
        -c
    } else {
        c
    }
}

/// The largest absolute coefficient value of a non-empty sequence.
pub open spec fn spec_max_abs(coeffs: Seq<int>) -> int
    recommends
        coeffs.len() >= 1,
    decreases coeffs.len(),
{
    if coeffs.len() <= 1 {
        spec_abs(coeffs[0])
    } else {
        let rest = spec_max_abs(coeffs.drop_last());
        if spec_abs(coeffs.last()) > rest {
            spec_abs(coeffs.last())
        } else {
            rest
        }
    }
}

/// The smallest absolute coefficient value of a non-empty sequence.
pub open spec fn spec_min_abs(coeffs: Seq<int>) -> int
    recommends
        coeffs.len() >= 1,
    decreases coeffs.len(),
{
    if coeffs.len() <= 1 {
        spec_abs(coeffs[0])
    } else {
        let rest = spec_min_abs(coeffs.drop_last());
        if spec_abs(coeffs.last()) < rest {
            spec_abs(coeffs.last())
        } else {
            rest
        }
    }
}

impl Polynomial {
    /// Well-formedness: at least one coefficient, bounded length and
    /// matrix size, and every coefficient within the fixed-point range.
    pub open spec fn wf(&self) -> bool {
        &&& 1 <= self@.coeffs.len() <= MAX_LEN
        &&& 1 <= self@.size <= MAX_SIZE
        &&& forall|i: int|
            0 <= i < self@.coeffs.len() ==> -COEFF_LIMIT <= #[trigger] self@.coeffs[i]
                <= COEFF_LIMIT
    }

    /// Builds a polynomial from an explicit fixed-point coefficient
    /// vector.
    pub fn from_vec(coefficients: Vec<i64>, matrix_size: usize) -> (r: Polynomial)
        requires
            1 <= coefficients@.len() <= MAX_LEN,
            1 <= matrix_size <= MAX_SIZE,
            forall|i: int|
                0 <= i < coefficients@.len() ==> -COEFF_LIMIT <= #[trigger] coefficients@[i]
                    <= COEFF_LIMIT,
        ensures
            r.wf(),
            r@.coeffs == coefficients@.map_values(|c: i64| c as int),
            r@.size == matrix_size as nat,
    {
        Polynomial { coefficients, size: matrix_size }
    }

    /// Builds a polynomial whose coefficients all hold `element`.
    pub fn from_element(polynomial_length: usize, matrix_size: usize, element: i64) -> (r:
        Polynomial)
        requires
            1 <= polynomial_length <= MAX_LEN,
            1 <= matrix_size <= MAX_SIZE,
            -COEFF_LIMIT <= element <= COEFF_LIMIT,
        ensures
            r.wf(),
            r@.coeffs.len() == polynomial_length as nat,
            forall|i: int| 0 <= i < polynomial_length ==> r@.coeffs[i] == element as int,
            r@.size == matrix_size as nat,
    {
        let mut coefficients: Vec<i64> = Vec::new();
        let mut i: usize = 0;
        while i < polynomial_length
            invariant
                i <= polynomial_length,
                coefficients@.len() == i as nat,
                forall|j: int| 0 <= j < i ==> coefficients@[j] == element,
            decreases polynomial_length - i,
        {
            coefficients.push(element);
            i += 1;
        }
        Polynomial { coefficients, size: matrix_size }
    }

    /// The number of coefficients.
    pub fn len(&self) -> (r: usize)
        ensures
            r as nat == self@.coeffs.len(),
    {
        self.coefficients.len()
    }

    /// The matrix side length this polynomial is evaluated against.
    pub fn get_size(&self) -> (r: usize)
        ensures
            r as nat == self@.size,
    {
        self.size
    }

    /// Changes the matrix side length this polynomial is evaluated
    /// against, leaving the coefficients untouched.
    pub fn set_size(&mut self, size: usize)
        requires
            1 <= size <= MAX_SIZE,
        ensures
            final(self)@.size == size as nat,
            final(self)@.coeffs == old(self)@.coeffs,
            old(self).wf() ==> final(self).wf(),
    {
        self.size = size;
    }

    /// Reads one coefficient.
    pub fn coefficient(&self, i: usize) -> (r: i64)
        requires
            (i as nat) < self@.coeffs.len(),
        ensures
            r as int == self@.coeffs[i as int],
    {
        self.coefficients[i]
    }

    /// Replaces one coefficient.
    pub fn set_coefficient(&mut self, i: usize, value: i64)
        requires
            (i as nat) < old(self)@.coeffs.len(),
            -COEFF_LIMIT <= value <= COEFF_LIMIT,
        ensures
            final(self)@.coeffs == old(self)@.coeffs.update(i as int, value as int),
            final(self)@.size == old(self)@.size,
            old(self).wf() ==> final(self).wf(),
    {
        self.coefficients.set(i, value);
        proof {
            assert(final(self)@.coeffs =~= old(self)@.coeffs.update(i as int, value as int));
        }
    }

    /// True when every coefficient is at least zero.
    pub fn is_polynomial_nonnegative(&self) -> (r: bool)
        ensures
            r == spec_all_at_least(self@.coeffs, 0),
    {
        self.is_polynomial_nonnegative_with_threshold(0)
    }

    /// True when every coefficient is at least `threshold` (a strict
    /// check uses zero; boundary checks use a small negative
    /// tolerance).
    pub fn is_polynomial_nonnegative_with_threshold(&self, threshold: i64) -> (r: bool)
        ensures
            r == spec_all_at_least(self@.coeffs, threshold as int),
    {
        let n = self.coefficients.len();
        let mut i: usize = 0;
        while i < n
            invariant
                i <= n,
                n as nat == self@.coeffs.len(),
                forall|j: int| 0 <= j < i ==> self@.coeffs[j] >= threshold,
            decreases n - i,
        {
            if self.coefficients[i] < threshold {
                proof {
                    assert(self@.coeffs[i as int] == self.coefficients@[i as int] as int);
                }
                return false;
            }
            i += 1;
        }
        true
    }

    /// The largest absolute coefficient value, used to normalize
    /// before scale-invariant comparison.
    pub fn max_term(&self) -> (r: i64)
        requires
            self.wf(),
        ensures
            r as int == spec_max_abs(self@.coeffs),
            0 <= r <= COEFF_LIMIT,
    {
        let n = self.coefficients.len();
        let c0 = self.coefficients[0];
        proof {
            assert(c0 as int == self@.coeffs[0]);
        }
        let mut max: i64 = if c0 < 0 {
            -c0
        } else {
            c0
        };
        let mut i: usize = 1;
        while i < n
            invariant
                1 <= i <= n,
                n as nat == self@.coeffs.len(),
                self.wf(),
                max as int == spec_max_abs(self@.coeffs.take(i as int)),
                0 <= max <= COEFF_LIMIT,
            decreases n - i,
        {
            let c = self.coefficients[i];
            proof {
                assert(c as int == self@.coeffs[i as int]);
            }
            let a: i64 = if c < 0 {
                -c
            } else {
                c
            };
            proof {
                assert(self@.coeffs.take(i + 1).drop_last() =~= self@.coeffs.take(i as int));
                assert(self@.coeffs.take(i + 1).last() == self@.coeffs[i as int]);
            }
            if a > max {
                max = a;
            }
            i += 1;
        }
        proof {
            assert(self@.coeffs.take(n as int) =~= self@.coeffs);
        }
        max
    }

    /// The smallest absolute coefficient value.
    pub fn min_term(&self) -> (r: i64)
        requires
            self.wf(),
        ensures
            r as int == spec_min_abs(self@.coeffs),
            0 <= r <= COEFF_LIMIT,
    {
        let n = self.coefficients.len();
        let c0 = self.coefficients[0];
        proof {
            assert(c0 as int == self@.coeffs[0]);
        }
        let mut min: i64 = if c0 < 0 {
            -c0
        } else {
            c0
        };
        let mut i: usize = 1;
        while i < n
            invariant
                1 <= i <= n,
                n as nat == self@.coeffs.len(),
                self.wf(),
                min as int == spec_min_abs(self@.coeffs.take(i as int)),
                0 <= min <= COEFF_LIMIT,
            decreases n - i,
        {
            let c = self.coefficients[i];
            proof {
                assert(c as int == self@.coeffs[i as int]);
            }
            let a: i64 = if c < 0 {
                -c
            } else {
                c
            };
            proof {
                assert(self@.coeffs.take(i + 1).drop_last() =~= self@.coeffs.take(i as int));
                assert(self@.coeffs.take(i + 1).last() == self@.coeffs[i as int]);
            }
            if a < min {
                min = a;
            }
            i += 1;
        }
        proof {
            assert(self@.coeffs.take(n as int) =~= self@.coeffs);
        }
        min
    }
}

/// The walk that inspects a trailing (low-power) coefficient: a
/// negative value rejects, a positive value is a genuine extreme term,
/// and an exact zero shifts the effective extreme term one `size`
/// stride towards the high powers.
pub open spec fn spec_tail_walk(coeffs: Seq<int>, size: nat, t: nat) -> bool
    recommends
        t < coeffs.len(),
    decreases t,
{
    if coeffs[t as int] < 0 {
        true
    } else if coeffs[t as int] > 0 {
        false
    } else if size > 0 && t >= size {
        spec_tail_walk(coeffs, size, (t - size) as nat)
    } else {
        false
    }
}

/// The walk that inspects a leading (high-power) coefficient, striding
/// towards the low powers through a run of zeros.
pub open spec fn spec_head_walk(coeffs: Seq<int>, size: nat, t: nat) -> bool
    recommends
        t < coeffs.len(),
    decreases coeffs.len() - t,
{
    if coeffs[t as int] < 0 {
        true
    } else if coeffs[t as int] > 0 {
        false
    } else if size > 0 && t + size < coeffs.len() {
        spec_head_walk(coeffs, size, t + size)
    } else {
        false
    }
}

/// Position `i` rejects when either its trailing or its leading
/// zero-run walk finds a negative coefficient.
pub open spec fn spec_extreme_reject(coeffs: Seq<int>, size: nat, i: int) -> bool {
    spec_tail_walk(coeffs, size, (coeffs.len() - 1 - i) as nat) || spec_head_walk(
        coeffs,
        size,
        i as nat,
    )
}

/// The extreme-coefficient necessary-condition check: some position
/// `i` among the first `size` (and symmetrically among the last
/// `size`) coefficients rejects, through the zero-run walks.
pub open spec fn spec_first_last_negative(coeffs: Seq<int>, size: nat) -> bool {
    exists|i: int|
        0 <= i < size && i < coeffs.len() && #[trigger] spec_extreme_reject(coeffs, size, i)
}

/// A rejecting tail walk always lands on a negative coefficient.
pub proof fn lemma_tail_walk_negative(coeffs: Seq<int>, size: nat, t: nat)
    requires
        t < coeffs.len(),
        spec_tail_walk(coeffs, size, t),
    ensures
        exists|j: int| 0 <= j < coeffs.len() && coeffs[j] < 0,
    decreases t,
{
    if coeffs[t as int] < 0 {
        assert(coeffs[t as int] < 0);
    } else {
        lemma_tail_walk_negative(coeffs, size, (t - size) as nat);
    }
}

/// A rejecting head walk always lands on a negative coefficient.
pub proof fn lemma_head_walk_negative(coeffs: Seq<int>, size: nat, t: nat)
    requires
        t < coeffs.len(),
        spec_head_walk(coeffs, size, t),
    ensures
        exists|j: int| 0 <= j < coeffs.len() && coeffs[j] < 0,
    decreases coeffs.len() - t,
{
    if coeffs[t as int] < 0 {
        assert(coeffs[t as int] < 0);
    } else {
        lemma_head_walk_negative(coeffs, size, t + size);
    }
}

/// A negative value among the first or the last `size` coefficients
/// always triggers the extreme-coefficient reject: the walk finds it
/// at its very first step.
pub proof fn lemma_negative_extreme_rejects(coeffs: Seq<int>, size: nat, i: int)
    requires
        0 <= i < coeffs.len(),
        coeffs[i] < 0,
        i < size || i >= coeffs.len() - size,
    ensures
        spec_first_last_negative(coeffs, size),
{
    if i < size {
        assert(spec_head_walk(coeffs, size, i as nat));
        assert(spec_extreme_reject(coeffs, size, i));
    } else {
        let pos = coeffs.len() - 1 - i;
        assert(spec_tail_walk(coeffs, size, (coeffs.len() - 1 - pos) as nat));
        assert(spec_extreme_reject(coeffs, size, pos));
    }
}

/// A polynomial that the extreme-coefficient check rejects has a
/// negative coefficient, so it is never fully non-negative.
pub proof fn lemma_first_last_negative_not_nonnegative(coeffs: Seq<int>, size: nat)
    requires
        spec_first_last_negative(coeffs, size),
    ensures
        !spec_all_at_least(coeffs, 0),
{
    let i = choose|i: int|
        0 <= i < size && i < coeffs.len() && #[trigger] spec_extreme_reject(coeffs, size, i);
    if spec_tail_walk(coeffs, size, (coeffs.len() - 1 - i) as nat) {
        lemma_tail_walk_negative(coeffs, size, (coeffs.len() - 1 - i) as nat);
    } else {
        lemma_head_walk_negative(coeffs, size, i as nat);
    }
}

impl Polynomial {
    /// Runs the trailing zero-run walk from position `start`.
    fn tail_extreme_negative(&self, start: usize) -> (r: bool)
        requires
            self.wf(),
            (start as nat) < self@.coeffs.len(),
        ensures
            r == spec_tail_walk(self@.coeffs, self@.size, start as nat),
    {
        let mut t: usize = start;
        loop
            invariant
                self.wf(),
                (t as nat) < self@.coeffs.len(),
                spec_tail_walk(self@.coeffs, self@.size, t as nat) == spec_tail_walk(
                    self@.coeffs,
                    self@.size,
                    start as nat,
                ),
            decreases t,
        {
            let c = self.coefficients[t];
            proof {
                assert(c as int == self@.coeffs[t as int]);
            }
            if c < 0 {
                return true;
            }
            if c > 0 {
                return false;
            }
            if t < self.size {
                return false;
            }
            t -= self.size;
        }
    }

    /// Runs the leading zero-run walk from position `start`.
    fn head_extreme_negative(&self, start: usize) -> (r: bool)
        requires
            self.wf(),
            (start as nat) < self@.coeffs.len(),
        ensures
            r == spec_head_walk(self@.coeffs, self@.size, start as nat),
    {
        let n = self.coefficients.len();
        let mut t: usize = start;
        loop
            invariant
                self.wf(),
                n as nat == self@.coeffs.len(),
                (t as nat) < self@.coeffs.len(),
                spec_head_walk(self@.coeffs, self@.size, t as nat) == spec_head_walk(
                    self@.coeffs,
                    self@.size,
                    start as nat,
                ),
            decreases n - t,
        {
            let c = self.coefficients[t];
            proof {
                assert(c as int == self@.coeffs[t as int]);
            }
            if c < 0 {
                return true;
            }
            if c > 0 {
                return false;
            }
            if self.size >= n - t {
                return false;
            }
            t += self.size;
        }
    }

    /// The fast necessary-condition reject: scans the extreme-degree
    /// coefficients (the first and last `size` positions) for a
    /// negative value, walking through runs of zeros in strides of
    /// `size` because a zero extreme coefficient shifts which term is
    /// effectively extreme.
    pub fn are_first_last_negative(&self) -> (r: bool)
        requires
            self.wf(),
        ensures
            r == spec_first_last_negative(self@.coeffs, self@.size),
    {
        let n = self.coefficients.len();
        let mut i: usize = 0;
        while i < self.size
            invariant_except_break
                self.wf(),
                n as nat == self@.coeffs.len(),
                i <= self.size,
                forall|k: int|
                    0 <= k < i && k < n ==> !#[trigger] spec_extreme_reject(
                        self@.coeffs,
                        self@.size,
                        k,
                    ),
            ensures
                !spec_first_last_negative(self@.coeffs, self@.size),
            decreases self.size - i,
        {
            if n - 1 < i {
                proof {
                    assert(forall|k: int|
                        0 <= k < self@.size && k < n ==> !#[trigger] spec_extreme_reject(
                            self@.coeffs,
                            self@.size,
                            k,
                        ));
                }
                break;
            }
            let last = n - 1 - i;
            if self.tail_extreme_negative(last) {
                proof {
                    assert(spec_extreme_reject(self@.coeffs, self@.size, i as int));
                    assert(spec_first_last_negative(self@.coeffs, self@.size));
                }
                return true;
            }
            if self.head_extreme_negative(i) {
                proof {
                    assert(spec_extreme_reject(self@.coeffs, self@.size, i as int));
                    assert(spec_first_last_negative(self@.coeffs, self@.size));
                }
                return true;
            }
            i += 1;
        }
        false
    }

    /// The classical power-rule shift: a polynomial one term shorter
    /// whose coefficient at index `i - 1` is `i` times the coefficient
    /// at index `i`, with the same matrix size.
    pub fn derivative(&self) -> (r: Polynomial)
        requires
            self.wf(),
            self@.coeffs.len() >= 2,
            forall|i: int|
                1 <= i < self@.coeffs.len() ==> spec_abs(i * #[trigger] self@.coeffs[i])
                    <= COEFF_LIMIT,
        ensures
            r.wf(),
            r@.coeffs.len() == self@.coeffs.len() - 1,
            forall|i: int|
                1 <= i < self@.coeffs.len() ==> r@.coeffs[i - 1] == i * self@.coeffs[i],
            r@.size == self@.size,
    {
        let n = self.coefficients.len();
        let mut derivative = Polynomial::from_element(n - 1, self.size, 0);
        let mut i: usize = 1;
        while i < n
            invariant
                1 <= i <= n,
                n as nat == self@.coeffs.len(),
                n <= MAX_LEN,
                self.wf(),
                forall|j: int|
                    1 <= j < n ==> spec_abs(j * #[trigger] self@.coeffs[j]) <= COEFF_LIMIT,
                derivative@.coeffs.len() == n - 1,
                derivative@.size == self@.size,
                forall|j: int| 1 <= j < i ==> derivative@.coeffs[j - 1] == j * self@.coeffs[j],
                forall|j: int|
                    0 <= j < n - 1 ==> -COEFF_LIMIT <= #[trigger] derivative@.coeffs[j]
                        <= COEFF_LIMIT,
            decreases n - i,
        {
            let c = self.coefficients[i];
            proof {
                assert(c as int == self@.coeffs[i as int]);
                assert(spec_abs((i as int) * (c as int)) <= COEFF_LIMIT);
            }
            derivative.set_coefficient(i - 1, (i as i64) * c);
            i += 1;
        }
        derivative
    }
}

impl Clone for Polynomial {
    /// Clones preserve the whole mathematical content.
    fn clone(&self) -> (r: Self)
        ensures
            r@.coeffs == self@.coeffs,
            r@.size == self@.size,
    {
        let mut coefficients: Vec<i64> = Vec::new();
        let n = self.coefficients.len();
        let mut i: usize = 0;
        while i < n
            invariant
                i <= n,
                n as nat == self.coefficients@.len(),
                coefficients@.len() == i as nat,
                forall|j: int| 0 <= j < i ==> coefficients@[j] == self.coefficients@[j],
            decreases n - i,
        {
            coefficients.push(self.coefficients[i]);
            i += 1;
        }
        let r = Polynomial { coefficients, size: self.size };
        proof {
            assert(r@.coeffs =~= self@.coeffs);
        }
        r
    }
}

impl PartialEq for Polynomial {
    /// Two polynomials are equal when their full coefficient vectors
    /// and their matrix sizes agree.
    fn eq(&self, other: &Self) -> (r: bool) {
        if self.size != other.size {
            proof {
                assert(self@.size != other@.size);
            }
            return false;
        }
        let n = self.coefficients.len();
        if n != other.coefficients.len() {
            proof {
                assert(self@.coeffs.len() != other@.coeffs.len());
            }
            return false;
        }
        let mut i: usize = 0;
        while i < n
            invariant
                i <= n,
                n as nat == self.coefficients@.len(),
                n as nat == other.coefficients@.len(),
                forall|j: int| 0 <= j < i ==> self.coefficients@[j] == other.coefficients@[j],
            decreases n - i,
        {
            if self.coefficients[i] != other.coefficients[i] {
                proof {
                    assert(self@.coeffs[i as int] != other@.coeffs[i as int]);
                }
                return false;
            }
            i += 1;
        }
        proof {
            assert(self@.coeffs =~= other@.coeffs);
        }
        true
    }
}

impl vstd::std_specs::cmp::PartialEqSpecImpl for Polynomial {
    open spec fn obeys_eq_spec() -> bool {
        true
    }

    open spec fn eq_spec(&self, other: &Polynomial) -> bool {
        self@.coeffs == other@.coeffs && self@.size == other@.size
    }
}

/// True when the two fixed-point values differ by fewer than
/// `APPROX_EPS` units.
pub fn approx_equal(term1: i64, term2: i64) -> (r: bool)
    ensures
        r == (spec_abs(term1 as int - term2 as int) < APPROX_EPS as int),
{
    let diff: i128 = term1 as i128 - term2 as i128;
    let a: i128 = if diff < 0 {
        -diff
    } else {
        diff
    };
    a < APPROX_EPS as i128
}

/// The decimal digit character for a value below ten.
pub open spec fn spec_digit(d: int) -> char {
    if d == 0 {
        '0'
    } else if d == 1 {
        '1'
    } else if d == 2 {
        '2'
    } else if d == 3 {
        '3'
    } else if d == 4 {
        '4'
    } else if d == 5 {
        '5'
    } else if d == 6 {
        '6'
    } else if d == 7 {
        '7'
    } else if d == 8 {
        '8'
    } else {
        '9'
    }
}

/// The plain decimal rendering of a natural number, most significant
/// digit first and without leading zeros.
pub open spec fn spec_decimal(n: nat) -> Seq<char>
    decreases n,
{
    if n < 10 {
        seq![spec_digit(n as int)]
    } else {
        spec_decimal(n / 10) + seq![spec_digit((n % 10) as int)]
    }
}

/// Powers of ten.
pub open spec fn spec_pow10(e: nat) -> int
    decreases e,
{
    if e == 0 {
        1
    } else {
        10 * spec_pow10((e - 1) as nat)
    }
}

/// The seven-digit zero-padded rendering of a fraction below ten
/// million.
pub open spec fn spec_frac_digits(f: nat) -> Seq<char> {
    Seq::new(7, |i: int| spec_digit(((f as int) / spec_pow10((6 - i) as nat)) % 10))
}

/// One rendered term: the sign, a space, the whole part, a dot, seven
/// fraction digits, the power annotation, and a trailing space.
pub open spec fn spec_term(sign: char, whole: nat, frac: nat, power: nat) -> Seq<char> {
    seq![sign, ' '] + spec_decimal(whole) + seq!['.'] + spec_frac_digits(frac) + seq!['x', '^']
        + spec_decimal(power) + seq![' ']
}

/// Relies on the `format` macro of std: `{}` renders a `u64` or a
/// `usize` as plain decimal without leading zeros, and `{:07}` pads a
/// value below ten million to exactly seven digits with leading
/// zeros.
#[verifier::external_body]
fn format_term(sign: char, whole: u64, frac: u64, power: usize) -> (r: String)
    requires
        frac < 10000000,
    ensures
        r@ == spec_term(sign, whole as nat, frac as nat, power as nat),
{
    format!("{} {}.{:07}x^{} ", sign, whole, frac, power)
}

/// The rendered term of the coefficient at index `i`: its sign, its
/// magnitude split into a whole part and a seven-digit fraction of
/// the fixed-point unit, and its power annotation.
pub open spec fn spec_term_of(coeffs: Seq<int>, i: int) -> Seq<char> {
    let c = coeffs[i];
    let magnitude = spec_abs(c);
    spec_term(
        if c < 0 {
            '-'
        } else {
            '+'
        },
        (magnitude / (UNIT as int)) as nat,
        (((magnitude % (UNIT as int)) * 10000000) / (UNIT as int)) as nat,
        (coeffs.len() - 1 - i) as nat,
    )
}

/// The rendered text of the first `upto` coefficients, highest power
/// first.
pub open spec fn spec_rendered(coeffs: Seq<int>, upto: nat) -> Seq<char>
    decreases upto,
{
    if upto == 0 {
        Seq::empty()
    } else {
        spec_rendered(coeffs, (upto - 1) as nat) + spec_term_of(coeffs, upto - 1)
    }
}

impl Polynomial {
    /// Renders the polynomial as human-readable text: one signed
    /// term with a seven-digit fraction and an explicit power
    /// annotation per coefficient, highest power first.
    pub fn to_string(&self) -> (r: String)
        requires
            self.wf(),
        ensures
            r@ == spec_rendered(self@.coeffs, self@.coeffs.len()),
    {
        let n = self.coefficients.len();
        let mut out = String::new();
        let mut i: usize = 0;
        proof {
            assert(out@ =~= spec_rendered(self@.coeffs, 0));
        }
        while i < n
            invariant
                i <= n,
                n as nat == self@.coeffs.len(),
                self.wf(),
                out@ == spec_rendered(self@.coeffs, i as nat),
            decreases n - i,
        {
            let c = self.coefficients[i];
            proof {
                assert(c as int == self@.coeffs[i as int]);
            }
            let sign: char = if c < 0 {
                '-'
            } else {
                '+'
            };
            let magnitude: u64 = if c < 0 {
                (-c) as u64
            } else {
                c as u64
            };
            let unit = UNIT as u64;
            let whole = magnitude / unit;
            let frac_units = magnitude % unit;
            let frac = frac_units * 10000000 / unit;
            proof {
                assert(frac_units < unit);
                assert((frac_units as int * 10000000) / (unit as int) < 10000000)
                    by (nonlinear_arith)
                    requires
                        0 <= frac_units as int,
                        (frac_units as int) < (unit as int),
                        unit as int == 1048576,
                ;
                assert(frac < 10000000);
                assert(whole as int == spec_abs(c as int) / (UNIT as int));
                assert(frac as int == ((spec_abs(c as int) % (UNIT as int)) * 10000000) / (
                UNIT as int));
            }
            let term = format_term(sign, whole, frac, n - 1 - i);
            out.append(term.as_str());
            proof {
                assert(out@ =~= spec_rendered(self@.coeffs, (i + 1) as nat));
            }
            i += 1;
        }
        out
    }
}

} // verus!
