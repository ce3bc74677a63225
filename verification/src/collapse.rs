use vstd::prelude::*;
use crate::polynomial::{Polynomial, PolyView, spec_abs, spec_max_abs, UNIT, COEFF_LIMIT};
use vstd::arithmetic::div_mod::{lemma_div_is_ordered, lemma_div_multiples_vanish};

verus! {

/// The integer view of a fixed-point coefficient vector.
pub open spec fn iv(s: Seq<i64>) -> Seq<int> {
    s.map_values(|c: i64| c as int)
}

/// The views of a sequence of polynomials.
pub open spec fn spec_poly_views(s: Seq<Polynomial>) -> Seq<PolyView> {
    s.map_values(|p: Polynomial| p@)
}

/// One coefficient scaled so that a maximal-magnitude coefficient
/// becomes one whole unit: the magnitude is multiplied by `UNIT`,
/// divided by the maximal magnitude `m` (rounding towards zero), and
/// the sign is restored.
pub open spec fn spec_scale(c: int, m: int) -> int {
    if c >= 0 {
        (c * (UNIT as int)) / m
    } else {
        -(((-c) * (UNIT as int)) / m)
    }
}

/// A coefficient vector scaled down so that its largest magnitude
/// becomes one whole unit; the all-zero vector stays as it is.
pub open spec fn spec_normalize(coeffs: Seq<int>) -> Seq<int> {
    let m = spec_max_abs(coeffs);
    if m == 0 {
        coeffs
    } else {
        Seq::new(coeffs.len(), |k: int| spec_scale(coeffs[k], m))
    }
}

/// Elementwise domination: `a` is at most `b` in every coordinate.
pub open spec fn spec_dominates(a: Seq<int>, b: Seq<int>) -> bool {
    a.len() == b.len() && forall|k: int| 0 <= k < a.len() ==> #[trigger] a[k] <= b[k]
}

/// Candidate `j` survives the pruning pass: any other candidate that
/// dominates it is an exact duplicate standing later in the list.
pub open spec fn spec_keep(norms: Seq<Seq<int>>, j: int) -> bool {
    forall|i: int|
        0 <= i < norms.len() && i != j && #[trigger] spec_dominates(norms[i], norms[j])
            ==> spec_dominates(norms[j], norms[i]) && i > j
}

/// The surviving indices below `hi`, in increasing order.
pub open spec fn spec_kept_upto(norms: Seq<Seq<int>>, hi: int) -> Seq<int>
    decreases hi,
{
    if hi <= 0 {
        Seq::empty()
    } else {
        let prev = spec_kept_upto(norms, hi - 1);
        if spec_keep(norms, hi - 1) {
            prev.push(hi - 1)
        } else {
            prev
        }
    }
}

/// The normalized comparison keys of a list of polynomials.
pub open spec fn spec_norms(vs: Seq<PolyView>) -> Seq<Seq<int>> {
    vs.map_values(|v: PolyView| spec_normalize(v.coeffs))
}

/// The polynomials standing at the given indices.
pub open spec fn spec_select(vs: Seq<PolyView>, ixs: Seq<int>) -> Seq<PolyView> {
    Seq::new(ixs.len(), |a: int| vs[ixs[a]])
}

/// The Pareto pruning of a list of polynomials: the survivors, in
/// their original order and with their original (un-normalized)
/// coefficients, of the elementwise domination order on the
/// normalized keys.
pub open spec fn spec_collapse(vs: Seq<PolyView>) -> Seq<PolyView> {
    spec_select(vs, spec_kept_upto(spec_norms(vs), vs.len() as int))
}

/// Every coefficient's magnitude is bounded by the maximal magnitude.
pub proof fn lemma_max_abs_ge(coeffs: Seq<int>, k: int)
    requires
        0 <= k < coeffs.len(),
    ensures
        spec_abs(coeffs[k]) <= spec_max_abs(coeffs),
    decreases coeffs.len(),
{
    if coeffs.len() <= 1 {
    } else if k == coeffs.len() - 1 {
        lemma_max_abs_ge(coeffs.drop_last(), 0);
    } else {
        lemma_max_abs_ge(coeffs.drop_last(), k);
    }
}

/// The surviving indices stand strictly increasing, each below `hi`
/// and each a surviving candidate.
pub proof fn lemma_kept_upto_props(norms: Seq<Seq<int>>, hi: int)
    ensures
        forall|a: int|
            0 <= a < spec_kept_upto(norms, hi).len() ==> 0 <= #[trigger] spec_kept_upto(norms, hi)[a]
                < hi && spec_keep(norms, spec_kept_upto(norms, hi)[a]),
        forall|a: int, b: int|
            0 <= a < b < spec_kept_upto(norms, hi).len() ==> #[trigger] spec_kept_upto(norms, hi)[a]
                < #[trigger] spec_kept_upto(norms, hi)[b],
    decreases hi,
{
    if hi <= 0 {
    } else {
        lemma_kept_upto_props(norms, hi - 1);
        let prev = spec_kept_upto(norms, hi - 1);
        let cur = spec_kept_upto(norms, hi);
        if spec_keep(norms, hi - 1) {
            assert(cur == prev.push(hi - 1));
            assert forall|a: int|
                0 <= a < cur.len() implies 0 <= #[trigger] cur[a] < hi && spec_keep(
                norms,
                cur[a],
            ) by {
                if a < prev.len() {
                    assert(cur[a] == prev[a]);
                } else {
                    assert(cur[a] == hi - 1);
                }
            }
            assert forall|a: int, b: int|
                0 <= a < b < cur.len() implies #[trigger] cur[a] < #[trigger] cur[b] by {
                if b < prev.len() {
                    assert(cur[a] == prev[a] && cur[b] == prev[b]);
                } else {
                    assert(cur[b] == hi - 1);
                    assert(cur[a] == prev[a]);
                    assert(prev[a] < hi - 1);
                }
            }
        } else {
            assert(cur == prev);
        }
    }
}

/// When every candidate survives, the surviving indices below `hi` are
/// exactly `0, 1, ..., hi - 1`.
pub proof fn lemma_kept_upto_all(norms: Seq<Seq<int>>, hi: int)
    requires
        0 <= hi,
        forall|j: int| 0 <= j < hi ==> #[trigger] spec_keep(norms, j),
    ensures
        spec_kept_upto(norms, hi) == Seq::new(hi as nat, |a: int| a),
    decreases hi,
{
    if hi == 0 {
        assert(spec_kept_upto(norms, 0) =~= Seq::new(0, |a: int| a));
    } else {
        lemma_kept_upto_all(norms, hi - 1);
        assert(spec_kept_upto(norms, hi) =~= Seq::new(hi as nat, |a: int| a));
    }
}

/// No two distinct survivors of a collapse dominate each other after
/// normalization: the result is an antichain of the elementwise order
/// on the normalized keys.
pub proof fn lemma_collapse_antichain(vs: Seq<PolyView>, a: int, b: int)
    requires
        0 <= a < spec_collapse(vs).len(),
        0 <= b < spec_collapse(vs).len(),
        a != b,
    ensures
        !spec_dominates(
            spec_normalize(spec_collapse(vs)[a].coeffs),
            spec_normalize(spec_collapse(vs)[b].coeffs),
        ),
{
    let norms = spec_norms(vs);
    let kept = spec_kept_upto(norms, vs.len() as int);
    lemma_kept_upto_props(norms, vs.len() as int);
    let ka = kept[a];
    let kb = kept[b];
    assert(ka != kb) by {
        if a < b {
            assert(kept[a] < kept[b]);
        } else {
            assert(kept[b] < kept[a]);
        }
    }
    assert(spec_collapse(vs)[a] == vs[ka]) by {
        assert(spec_select(vs, kept)[a] == vs[kept[a]]);
    }
    assert(spec_collapse(vs)[b] == vs[kb]) by {
        assert(spec_select(vs, kept)[b] == vs[kept[b]]);
    }
    assert(norms[ka] == spec_normalize(vs[ka].coeffs));
    assert(norms[kb] == spec_normalize(vs[kb].coeffs));
    if spec_dominates(norms[ka], norms[kb]) {
        assert(spec_keep(norms, kb));
        assert(spec_dominates(norms[kb], norms[ka]) && ka > kb);
        assert(spec_keep(norms, ka));
        assert(spec_dominates(norms[ka], norms[kb]) && kb > ka);
        assert(false);
    }
}

/// Elementwise domination is transitive.
proof fn lemma_dominates_transitive(a: Seq<int>, b: Seq<int>, c: Seq<int>)
    requires
        spec_dominates(a, b),
        spec_dominates(b, c),
    ensures
        spec_dominates(a, c),
{
    assert forall|k: int| 0 <= k < a.len() implies #[trigger] a[k] <= c[k] by {
        assert(a[k] <= b[k]);
        assert(b[k] <= c[k]);
    }
}

/// `j` is a minimal element of the domination preorder among the
/// candidates up to `k`: whoever dominates it is dominated back.
spec fn spec_minimal_upto(norms: Seq<Seq<int>>, k: int, j: int) -> bool {
    forall|i: int|
        0 <= i <= k && #[trigger] spec_dominates(norms[i], norms[j]) ==> spec_dominates(
            norms[j],
            norms[i],
        )
}

/// A minimal element of the domination preorder exists among the
/// candidates up to `k`.
proof fn lemma_minimal_exists(norms: Seq<Seq<int>>, k: int)
    requires
        0 <= k < norms.len(),
    ensures
        exists|j: int| 0 <= j <= k && #[trigger] spec_minimal_upto(norms, k, j),
    decreases k,
{
    if k == 0 {
        assert(spec_minimal_upto(norms, 0, 0));
    } else {
        lemma_minimal_exists(norms, k - 1);
        let j = choose|j: int| 0 <= j <= k - 1 && #[trigger] spec_minimal_upto(norms, k - 1, j);
        if spec_dominates(norms[k], norms[j]) && !spec_dominates(norms[j], norms[k]) {
            assert forall|i: int|
                0 <= i <= k && #[trigger] spec_dominates(norms[i], norms[k]) implies spec_dominates(
                norms[k],
                norms[i],
            ) by {
                if i < k {
                    lemma_dominates_transitive(norms[i], norms[k], norms[j]);
                    assert(spec_dominates(norms[j], norms[i]));
                    lemma_dominates_transitive(norms[k], norms[j], norms[i]);
                }
            }
            assert(spec_minimal_upto(norms, k, k));
        } else {
            assert forall|i: int|
                0 <= i <= k && #[trigger] spec_dominates(norms[i], norms[j]) implies spec_dominates(
                norms[j],
                norms[i],
            ) by {}
            assert(spec_minimal_upto(norms, k, j));
        }
    }
}

/// Among the indices whose key both dominates and is dominated by the
/// target's key, there is a least one.
proof fn lemma_least_equivalent(norms: Seq<Seq<int>>, j: int)
    requires
        0 <= j < norms.len(),
    ensures
        exists|j0: int|
            {
                &&& 0 <= j0 <= j
                &&& #[trigger] spec_dominates(norms[j0], norms[j])
                &&& spec_dominates(norms[j], norms[j0])
                &&& forall|i: int|
                    0 <= i < j0 ==> !(#[trigger] spec_dominates(norms[i], norms[j])
                        && spec_dominates(norms[j], norms[i]))
            },
    decreases j,
{
    if exists|i: int|
        0 <= i < j && #[trigger] spec_dominates(norms[i], norms[j]) && spec_dominates(
            norms[j],
            norms[i],
        ) {
        let i = choose|i: int|
            0 <= i < j && #[trigger] spec_dominates(norms[i], norms[j]) && spec_dominates(
                norms[j],
                norms[i],
            );
        lemma_least_equivalent(norms, i);
        let j0 = choose|j0: int|
            {
                &&& 0 <= j0 <= i
                &&& #[trigger] spec_dominates(norms[j0], norms[i])
                &&& spec_dominates(norms[i], norms[j0])
                &&& forall|t: int|
                    0 <= t < j0 ==> !(#[trigger] spec_dominates(norms[t], norms[i])
                        && spec_dominates(norms[i], norms[t]))
            };
        lemma_dominates_transitive(norms[j0], norms[i], norms[j]);
        lemma_dominates_transitive(norms[j], norms[i], norms[j0]);
        assert forall|t: int|
            0 <= t < j0 implies !(#[trigger] spec_dominates(norms[t], norms[j])
            && spec_dominates(norms[j], norms[t])) by {
            if spec_dominates(norms[t], norms[j]) && spec_dominates(norms[j], norms[t]) {
                lemma_dominates_transitive(norms[t], norms[j], norms[i]);
                lemma_dominates_transitive(norms[i], norms[j], norms[t]);
                assert(false);
            }
        }
    } else {
        assert(0 <= j <= j && spec_dominates(norms[j], norms[j]) && spec_dominates(
            norms[j],
            norms[j],
        ) && forall|i: int|
            0 <= i < j ==> !(#[trigger] spec_dominates(norms[i], norms[j]) && spec_dominates(
                norms[j],
                norms[i],
            )));
    }
}

/// A surviving candidate below `hi` puts something in the surviving
/// index list.
proof fn lemma_kept_upto_nonempty(norms: Seq<Seq<int>>, hi: int, j: int)
    requires
        0 <= j < hi,
        spec_keep(norms, j),
    ensures
        spec_kept_upto(norms, hi).len() >= 1,
    decreases hi,
{
    if j == hi - 1 {
    } else {
        lemma_kept_upto_nonempty(norms, hi - 1, j);
    }
}

/// Collapsing a non-empty candidate list keeps at least one survivor:
/// a least representative of a minimal domination class always
/// survives the pruning pass.
pub proof fn lemma_collapse_nonempty(vs: Seq<PolyView>)
    requires
        vs.len() >= 1,
    ensures
        spec_collapse(vs).len() >= 1,
{
    let norms = spec_norms(vs);
    assert(norms.len() == vs.len());
    lemma_minimal_exists(norms, norms.len() - 1);
    let j = choose|j: int|
        0 <= j <= norms.len() - 1 && #[trigger] spec_minimal_upto(norms, norms.len() - 1, j);
    lemma_least_equivalent(norms, j);
    let j0 = choose|j0: int|
        {
            &&& 0 <= j0 <= j
            &&& #[trigger] spec_dominates(norms[j0], norms[j])
            &&& spec_dominates(norms[j], norms[j0])
            &&& forall|i: int|
                0 <= i < j0 ==> !(#[trigger] spec_dominates(norms[i], norms[j])
                    && spec_dominates(norms[j], norms[i]))
        };
    assert forall|i: int|
        0 <= i < norms.len() && i != j0 && #[trigger] spec_dominates(
            norms[i],
            norms[j0],
        ) implies spec_dominates(norms[j0], norms[i]) && i > j0 by {
        lemma_dominates_transitive(norms[i], norms[j0], norms[j]);
        assert(spec_dominates(norms[j], norms[i]));
        lemma_dominates_transitive(norms[j0], norms[j], norms[i]);
        if i < j0 {
            lemma_dominates_transitive(norms[j], norms[j0], norms[i]);
            lemma_dominates_transitive(norms[i], norms[j0], norms[j]);
            assert(spec_dominates(norms[i], norms[j]) && spec_dominates(norms[j], norms[i]));
            assert(false);
        }
    }
    assert(spec_keep(norms, j0));
    lemma_kept_upto_nonempty(norms, norms.len() as int, j0);
    assert(spec_collapse(vs).len() == spec_kept_upto(norms, vs.len() as int).len());
}

/// Every survivor of a collapse is one of the candidates.
pub proof fn lemma_collapse_members(vs: Seq<PolyView>, a: int)
    requires
        0 <= a < spec_collapse(vs).len(),
    ensures
        exists|j: int| 0 <= j < vs.len() && spec_collapse(vs)[a] == #[trigger] vs[j],
{
    let norms = spec_norms(vs);
    let kept = spec_kept_upto(norms, vs.len() as int);
    lemma_kept_upto_props(norms, vs.len() as int);
    assert(spec_select(vs, kept)[a] == vs[kept[a]]);
    assert(0 <= kept[a] < vs.len());
}

/// Collapsing is idempotent: collapsing a collapse result changes
/// nothing, because the survivors already form an antichain.
pub proof fn lemma_collapse_idempotent(vs: Seq<PolyView>)
    ensures
        spec_collapse(spec_collapse(vs)) == spec_collapse(vs),
{
    let out = spec_collapse(vs);
    let norms2 = spec_norms(out);
    assert forall|j: int| 0 <= j < out.len() implies #[trigger] spec_keep(norms2, j) by {
        assert forall|i: int|
            0 <= i < norms2.len() && i != j && #[trigger] spec_dominates(
                norms2[i],
                norms2[j],
            ) implies spec_dominates(norms2[j], norms2[i]) && i > j by {
            assert(norms2[i] == spec_normalize(out[i].coeffs));
            assert(norms2[j] == spec_normalize(out[j].coeffs));
            lemma_collapse_antichain(vs, i, j);
            assert(false);
        }
    }
    lemma_kept_upto_all(norms2, out.len() as int);
    assert(spec_collapse(out) =~= out) by {
        let ident = spec_kept_upto(norms2, out.len() as int);
        assert(ident == Seq::new(out.len(), |a: int| a));
        assert forall|a: int| 0 <= a < out.len() implies #[trigger] spec_collapse(out)[a]
            == out[a] by {
            assert(ident[a] == a);
            assert(spec_select(out, ident)[a] == out[ident[a]]);
        }
    }
}

/// Computes the normalized comparison key of one polynomial: each
/// coefficient scaled so that the largest magnitude becomes one whole
/// unit (the all-zero polynomial keeps its zeros).
fn norm_of(p: &Polynomial) -> (r: Vec<i64>)
    requires
        p.wf(),
    ensures
        iv(r@) == spec_normalize(p@.coeffs),
{
    let n = p.len();
    let m = p.max_term();
    let mut out: Vec<i64> = Vec::new();
    let mut k: usize = 0;
    if m == 0 {
        while k < n
            invariant
                k <= n,
                n as nat == p@.coeffs.len(),
                p.wf(),
                out@.len() == k as nat,
                forall|t: int| 0 <= t < k ==> #[trigger] out@[t] as int == p@.coeffs[t],
            decreases n - k,
        {
            out.push(p.coefficient(k));
            k += 1;
        }
        proof {
            assert(iv(out@) =~= spec_normalize(p@.coeffs));
        }
        return out;
    }
    while k < n
        invariant
            k <= n,
            n as nat == p@.coeffs.len(),
            p.wf(),
            0 < m <= COEFF_LIMIT,
            m as int == spec_max_abs(p@.coeffs),
            out@.len() == k as nat,
            forall|t: int|
                0 <= t < k ==> #[trigger] out@[t] as int == spec_scale(p@.coeffs[t], m as int),
        decreases n - k,
    {
        let c = p.coefficient(k);
        let mag: u64 = if c < 0 {
            (-c) as u64
        } else {
            c as u64
        };
        proof {
            lemma_max_abs_ge(p@.coeffs, k as int);
            assert(mag as int == spec_abs(p@.coeffs[k as int]));
            assert(mag <= m);
            lemma_div_is_ordered(
                (mag as int) * (UNIT as int),
                (m as int) * (UNIT as int),
                m as int,
            );
            lemma_div_multiples_vanish(UNIT as int, m as int);
            assert((m as int) * (UNIT as int) == (m as int) * (UNIT as int));
            assert(((m as int) * (UNIT as int)) / (m as int) == UNIT as int);
            assert(((mag as int) * (UNIT as int)) / (m as int) <= UNIT as int);
            assert(((mag as int) * (UNIT as int)) >= 0) by (nonlinear_arith)
                requires
                    mag as int >= 0,
            ;
            vstd::arithmetic::div_mod::lemma_div_pos_is_pos((mag as int) * (UNIT as int), m as int);
        }
        let q128: u128 = (mag as u128) * (UNIT as u128) / (m as u128);
        let q: i64 = q128 as i64;
        let val: i64 = if c < 0 {
            -q
        } else {
            q
        };
        proof {
            if c < 0 {
                assert(val as int == spec_scale(p@.coeffs[k as int], m as int));
            } else {
                assert(val as int == spec_scale(p@.coeffs[k as int], m as int));
            }
        }
        out.push(val);
        k += 1;
    }
    proof {
        assert(iv(out@) =~= spec_normalize(p@.coeffs));
    }
    out
}

/// Elementwise comparison of two comparison keys.
fn dominates_vec(a: &Vec<i64>, b: &Vec<i64>) -> (r: bool)
    ensures
        r == spec_dominates(iv(a@), iv(b@)),
{
    let n = a.len();
    if n != b.len() {
        return false;
    }
    let mut k: usize = 0;
    while k < n
        invariant
            k <= n,
            n as nat == a@.len(),
            n as nat == b@.len(),
            forall|t: int| 0 <= t < k ==> #[trigger] iv(a@)[t] <= iv(b@)[t],
        decreases n - k,
    {
        if a[k] > b[k] {
            proof {
                assert(iv(a@)[k as int] > iv(b@)[k as int]);
            }
            return false;
        }
        k += 1;
    }
    true
}

/// Pareto pruning: normalizes a copy of every polynomial so that scale
/// plays no part, then keeps only the polynomials whose normalized
/// keys no other candidate dominates elementwise (of exact duplicates,
/// the earliest survives).  Survivors keep their original
/// coefficients and their original order.
pub fn collapse_polynomials(polynomial_base: &Vec<Polynomial>) -> (r: Vec<Polynomial>)
    requires
        forall|i: int|
            0 <= i < polynomial_base@.len() ==> #[trigger] polynomial_base@[i].wf(),
    ensures
        spec_poly_views(r@) == spec_collapse(spec_poly_views(polynomial_base@)),
        forall|i: int| 0 <= i < r@.len() ==> #[trigger] r@[i].wf(),
    {
    let ghost vs = spec_poly_views(polynomial_base@);
    let ghost ns = spec_norms(vs);
    let n = polynomial_base.len();
    let mut norms: Vec<Vec<i64>> = Vec::new();
    let mut j: usize = 0;
    while j < n
        invariant
            j <= n,
            n as nat == polynomial_base@.len(),
            forall|i: int|
                0 <= i < polynomial_base@.len() ==> #[trigger] polynomial_base@[i].wf(),
            vs == spec_poly_views(polynomial_base@),
            ns == spec_norms(vs),
            norms@.len() == j as nat,
            forall|t: int| 0 <= t < j ==> iv(#[trigger] norms@[t]@) == ns[t],
        decreases n - j,
    {
        let key = norm_of(&polynomial_base[j]);
        proof {
            assert(vs[j as int] == polynomial_base@[j as int]@);
            assert(ns[j as int] == spec_normalize(vs[j as int].coeffs));
        }
        norms.push(key);
        j += 1;
    }
    let mut out: Vec<Polynomial> = Vec::new();
    let mut j: usize = 0;
    while j < n
        invariant
            j <= n,
            n as nat == polynomial_base@.len(),
            forall|i: int|
                0 <= i < polynomial_base@.len() ==> #[trigger] polynomial_base@[i].wf(),
            vs == spec_poly_views(polynomial_base@),
            ns == spec_norms(vs),
            ns.len() == n as nat,
            norms@.len() == n as nat,
            forall|t: int| 0 <= t < n ==> iv(#[trigger] norms@[t]@) == ns[t],
            spec_poly_views(out@) == spec_select(vs, spec_kept_upto(ns, j as int)),
            forall|i: int| 0 <= i < out@.len() ==> #[trigger] out@[i].wf(),
        decreases n - j,
    {
        let mut keep = true;
        let mut i: usize = 0;
        while i < n
            invariant_except_break
                i <= n,
                j < n,
                keep,
                n as nat == ns.len(),
                norms@.len() == n as nat,
                forall|t: int| 0 <= t < n ==> iv(#[trigger] norms@[t]@) == ns[t],
                forall|t: int|
                    0 <= t < i && t != j as int && #[trigger] spec_dominates(ns[t], ns[j as int])
                        ==> spec_dominates(ns[j as int], ns[t]) && t > j as int,
            ensures
                keep == spec_keep(ns, j as int),
            decreases n - i,
        {
            if i != j {
                if dominates_vec(&norms[i], &norms[j]) {
                    let back = dominates_vec(&norms[j], &norms[i]);
                    if !(back && i > j) {
                        keep = false;
                        proof {
                            assert(spec_dominates(ns[i as int], ns[j as int]));
                            assert(!(spec_dominates(ns[j as int], ns[i as int]) && i as int
                                > j as int));
                            assert(!spec_keep(ns, j as int));
                        }
                        break;
                    }
                }
            }
            i += 1;
        }
        proof {
            assert(spec_kept_upto(ns, j as int + 1) == if spec_keep(ns, j as int) {
                spec_kept_upto(ns, j as int).push(j as int)
            } else {
                spec_kept_upto(ns, j as int)
            });
        }
        if keep {
            proof {
                assert(polynomial_base@[j as int].wf());
            }
            let cl = polynomial_base[j].clone();
            proof {
                assert(vs[j as int] == polynomial_base@[j as int]@);
                assert(cl@.coeffs == vs[j as int].coeffs && cl@.size == vs[j as int].size);
                assert(cl.wf());
            }
            let ghost out0 = out@;
            let ghost clv = cl@;
            out.push(cl);
            proof {
                let prev_kept = spec_kept_upto(ns, j as int);
                let new_kept = spec_kept_upto(ns, j as int + 1);
                assert(new_kept == prev_kept.push(j as int));
                assert(clv == vs[j as int]) by {
                    assert(clv.coeffs == vs[j as int].coeffs);
                    assert(clv.size == vs[j as int].size);
                }
                assert(spec_select(vs, prev_kept).len() == prev_kept.len());
                assert(out@.len() == new_kept.len());
                assert forall|a: int|
                    0 <= a < out@.len() implies #[trigger] spec_poly_views(out@)[a]
                    == spec_select(vs, new_kept)[a] by {
                    assert(spec_poly_views(out@)[a] == out@[a]@);
                    assert(spec_select(vs, new_kept)[a] == vs[new_kept[a]]);
                    if a < out0.len() {
                        assert(out@[a] == out0[a]);
                        assert(spec_poly_views(out0)[a] == out0[a]@);
                        assert(spec_select(vs, prev_kept)[a] == vs[prev_kept[a]]);
                        assert(new_kept[a] == prev_kept[a]);
                        assert(spec_poly_views(out0)[a] == spec_select(vs, prev_kept)[a]);
                    } else {
                        assert(out@[a]@ == clv);
                        assert(new_kept[a] == j as int);
                    }
                }
                assert(spec_poly_views(out@) =~= spec_select(vs, new_kept));
                assert forall|i: int| 0 <= i < out@.len() implies #[trigger] out@[i].wf() by {
                    if i < out0.len() {
                        assert(out@[i] == out0[i]);
                        assert(out0[i].wf());
                    } else {
                        assert(out@[i]@ == clv);
                    }
                }
            }
        }
        j += 1;
    }
    proof {
        assert(spec_poly_views(out@) == spec_collapse(vs));
    }
    out
}

impl Polynomial {
    /// Pareto pruning of a set of candidate boundary polynomials: see
    /// `collapse::collapse_polynomials`.
    pub fn collapse_polynomials(polynomial_base: &Vec<Polynomial>) -> (r: Vec<Polynomial>)
        requires
            forall|i: int|
                0 <= i < polynomial_base@.len() ==> #[trigger] polynomial_base@[i].wf(),
        ensures
            spec_poly_views(r@) == spec_collapse(spec_poly_views(polynomial_base@)),
            forall|i: int| 0 <= i < r@.len() ==> #[trigger] r@[i].wf(),
    {
        collapse_polynomials(polynomial_base)
    }
}

} // verus!
