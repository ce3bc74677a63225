use vstd::prelude::*;
use crate::combos::spec_is_combination;
use crate::polynomial::{Polynomial, spec_abs, spec_all_at_least, COEFF_LIMIT, UNIT};

verus! {

/// The halving descent stops once the step falls to this many
/// fixed-point units (about 0.001).
pub const MINIMIZER_STEP_MIN: i64 = 1048;

/// The initial descent step: half a unit.
pub const MINIMIZER_STEP_INIT: i64 = 524288;

/// A minimizer result must fail strict non-negativity within this
/// small negative tolerance (about -0.1), else it carries no boundary
/// information and is discarded.
pub const BOUNDARY_TOLERANCE: i64 = -104857;

/// Powers of two.
pub open spec fn spec_pow2(e: nat) -> int
    decreases e,
{
    if e == 0 {
        1
    } else {
        2 * spec_pow2((e - 1) as nat)
    }
}

/// Powers of two are positive.
pub proof fn lemma_pow2_pos(e: nat)
    ensures
        spec_pow2(e) >= 1,
    decreases e,
{
    if e > 0 {
        lemma_pow2_pos((e - 1) as nat);
    }
}

/// `k` is one of the indices of `combo`.
pub open spec fn spec_in_combo(combo: Seq<usize>, k: int) -> bool {
    exists|t: int| 0 <= t < combo.len() && combo[t] == k
}

/// `new` is `old` with `delta` added to exactly the coefficients whose
/// index lies in `combo`.
pub open spec fn spec_shifted(old: Seq<int>, new: Seq<int>, combo: Seq<usize>, delta: int) -> bool {
    &&& new.len() == old.len()
    &&& forall|k: int|
        0 <= k < old.len() ==> #[trigger] new[k] == old[k] + if spec_in_combo(combo, k) {
            delta
        } else {
            0
        }
}

/// In a strictly increasing combination, earlier entries are smaller.
pub proof fn lemma_combo_increasing(combo: Seq<usize>, u: int, v: int)
    requires
        forall|t: int| 0 <= t < combo.len() - 1 ==> #[trigger] combo[t] < combo[t + 1],
        0 <= u < v < combo.len(),
    ensures
        combo[u] < combo[v],
    decreases v - u,
{
    if u + 1 < v {
        lemma_combo_increasing(combo, u + 1, v);
    }
}

/// The sum of the coefficients standing at the indices of `combo`
/// (with multiplicity).
pub open spec fn spec_combo_sum(coeffs: Seq<int>, combo: Seq<usize>) -> int
    decreases combo.len(),
{
    if combo.len() == 0 {
        0
    } else {
        spec_combo_sum(coeffs, combo.drop_last()) + coeffs[combo.last() as int]
    }
}

/// The combination sum moves by `len * delta` under a shift, as long
/// as every summed index lies in the shifted combination.
pub proof fn lemma_combo_sum_shifted(
    old: Seq<int>,
    new: Seq<int>,
    sub: Seq<usize>,
    full: Seq<usize>,
    delta: int,
)
    requires
        spec_shifted(old, new, full, delta),
        forall|t: int|
            0 <= t < sub.len() ==> spec_in_combo(full, #[trigger] sub[t] as int) && (sub[t] as int)
                < old.len(),
    ensures
        spec_combo_sum(new, sub) == spec_combo_sum(old, sub) + sub.len() * delta,
    decreases sub.len(),
{
    if sub.len() == 0 {
    } else {
        lemma_combo_sum_shifted(old, new, sub.drop_last(), full, delta);
        assert(spec_in_combo(full, sub.last() as int));
        assert(new[sub.last() as int] == old[sub.last() as int] + delta);
        assert((sub.len() - 1) * delta + delta == sub.len() * delta) by (nonlinear_arith);
    }
}

/// The combination sum of bounded coefficients is bounded by
/// `len * COEFF_LIMIT` in magnitude.
pub proof fn lemma_combo_sum_bounds(coeffs: Seq<int>, combo: Seq<usize>)
    requires
        forall|k: int| 0 <= k < coeffs.len() ==> spec_abs(#[trigger] coeffs[k]) <= COEFF_LIMIT,
        forall|t: int| 0 <= t < combo.len() ==> (#[trigger] combo[t] as int) < coeffs.len(),
    ensures
        -(combo.len() * (COEFF_LIMIT as int)) <= spec_combo_sum(coeffs, combo) <= combo.len() * (
        COEFF_LIMIT as int),
    decreases combo.len(),
{
    if combo.len() == 0 {
    } else {
        lemma_combo_sum_bounds(coeffs, combo.drop_last());
        assert(spec_abs(coeffs[combo.last() as int]) <= COEFF_LIMIT);
        assert((combo.len() - 1) * (COEFF_LIMIT as int) + COEFF_LIMIT == combo.len() * (
        COEFF_LIMIT as int)) by (nonlinear_arith);
    }
}

/// The view of `p` with `delta` added to exactly the coefficients
/// whose index lies in `combo`.
pub open spec fn spec_shift_view(p: crate::polynomial::PolyView, combo: Seq<usize>, delta: int) -> crate::polynomial::PolyView {
    crate::polynomial::PolyView {
        coeffs: Seq::new(
            p.coeffs.len(),
            |k: int|
                p.coeffs[k] + if spec_in_combo(combo, k) {
                    delta
                } else {
                    0
                },
        ),
        size: p.size,
    }
}

/// Adding `delta` on the combination would push some coefficient of
/// `p` out of the fixed-point range.
pub open spec fn spec_shift_blocked(p: crate::polynomial::PolyView, combo: Seq<usize>, delta: int) -> bool {
    exists|t: int|
        0 <= t < combo.len() && !(-COEFF_LIMIT <= p.coeffs[#[trigger] combo[t] as int] + delta
            <= COEFF_LIMIT)
}

/// Uniform shifts on the same combination compose by adding their
/// deltas.
proof fn lemma_shift_compose(
    base: Seq<int>,
    mid: Seq<int>,
    new: Seq<int>,
    combo: Seq<usize>,
    d1: int,
    d2: int,
)
    requires
        spec_shifted(base, mid, combo, d1),
        spec_shifted(mid, new, combo, d2),
    ensures
        spec_shifted(base, new, combo, d1 + d2),
{
    assert forall|k: int|
        0 <= k < base.len() implies #[trigger] new[k] == base[k] + (if spec_in_combo(combo, k) {
        d1 + d2
    } else {
        0int
    }) by {
        assert(mid[k] == base[k] + if spec_in_combo(combo, k) {
            d1
        } else {
            0int
        });
    }
}

/// Pushing `p` down by step `s` on the combination yields a candidate
/// the verifier rejects, or leaves the coefficient range.
pub open spec fn spec_probe_rejected(
    verifier: &crate::polynomial_verifier::PolynomialVerifier,
    p: crate::polynomial::PolyView,
    combo: Seq<usize>,
    s: int,
) -> bool {
    !verifier.spec_test(spec_shift_view(p, combo, -s)) || spec_shift_blocked(p, combo, -s)
}

/// The halving descent from `p` along the combination is exhausted:
/// for some step above the stopping threshold, pushing `p` down by the
/// step either fails the verifier or leaves the coefficient range.
pub open spec fn spec_descent_blocked(
    verifier: &crate::polynomial_verifier::PolynomialVerifier,
    p: crate::polynomial::PolyView,
    combo: Seq<usize>,
) -> bool {
    exists|s: int|
        MINIMIZER_STEP_MIN < s <= MINIMIZER_STEP_INIT && #[trigger] spec_probe_rejected(
            verifier,
            p,
            combo,
            s,
        )
}

/// Adds `delta` to every coefficient whose index lies in the
/// combination.  Fails, leaving the polynomial untouched, when some
/// shifted coefficient would leave the fixed-point range.
fn shift_combination(polynomial: &mut Polynomial, combination: &Vec<usize>, delta: i64) -> (ok:
    bool)
    requires
        old(polynomial).wf(),
        spec_is_combination(
            combination@,
            old(polynomial)@.coeffs.len(),
            combination@.len() as nat,
        ),
        -UNIT <= delta <= UNIT,
    ensures
        final(polynomial).wf(),
        final(polynomial)@.size == old(polynomial)@.size,
        final(polynomial)@.coeffs.len() == old(polynomial)@.coeffs.len(),
        ok ==> spec_shifted(
            old(polynomial)@.coeffs,
            final(polynomial)@.coeffs,
            combination@,
            delta as int,
        ),
        !ok ==> final(polynomial)@.coeffs == old(polynomial)@.coeffs && spec_shift_blocked(
            old(polynomial)@,
            combination@,
            delta as int,
        ),
{
    let k = combination.len();
    let mut t: usize = 0;
    while t < k
        invariant
            t <= k,
            k as nat == combination@.len(),
            polynomial.wf(),
            polynomial@ == old(polynomial)@,
            spec_is_combination(combination@, polynomial@.coeffs.len(), combination@.len() as nat),
            -UNIT <= delta <= UNIT,
            forall|u: int|
                0 <= u < t ==> -COEFF_LIMIT <= #[trigger] polynomial@.coeffs[combination@[u] as int]
                    + delta <= COEFF_LIMIT,
        decreases k - t,
    {
        let idx = combination[t];
        let c = polynomial.coefficient(idx);
        if c + delta < -COEFF_LIMIT || c + delta > COEFF_LIMIT {
            proof {
                assert(!(-COEFF_LIMIT <= polynomial@.coeffs[combination@[t as int] as int]
                    + delta <= COEFF_LIMIT));
            }
            return false;
        }
        t += 1;
    }
    let ghost pre = polynomial@.coeffs;
    let mut t: usize = 0;
    while t < k
        invariant
            t <= k,
            k as nat == combination@.len(),
            polynomial.wf(),
            polynomial@.size == old(polynomial)@.size,
            polynomial@.coeffs.len() == pre.len(),
            pre == old(polynomial)@.coeffs,
            spec_is_combination(combination@, pre.len(), combination@.len() as nat),
            -UNIT <= delta <= UNIT,
            forall|u: int|
                0 <= u < k ==> -COEFF_LIMIT <= #[trigger] pre[combination@[u] as int] + delta
                    <= COEFF_LIMIT,
            forall|m: int|
                0 <= m < pre.len() ==> #[trigger] polynomial@.coeffs[m] == pre[m] + if exists|
                    u: int,
                |
                    0 <= u < t && combination@[u] == m {
                    delta as int
                } else {
                    0
                },
        decreases k - t,
    {
        let idx = combination[t];
        proof {
            assert((combination@[t as int] as int) < pre.len());
            if exists|u: int| 0 <= u < t && combination@[u] == idx {
                let u = choose|u: int| 0 <= u < t && combination@[u] == idx;
                lemma_combo_increasing(combination@, u, t as int);
                assert(false);
            }
            assert(polynomial@.coeffs[idx as int] == pre[idx as int]);
        }
        let c = polynomial.coefficient(idx);
        let ghost before = polynomial@.coeffs;
        polynomial.set_coefficient(idx, c + delta);
        proof {
            assert forall|m: int|
                0 <= m < pre.len() implies #[trigger] polynomial@.coeffs[m] == pre[m] + (if exists|
                u: int,
            |
                0 <= u < t + 1 && combination@[u] == m {
                delta as int
            } else {
                0
            }) by {
                if m == idx as int {
                    assert(combination@[t as int] == m);
                    assert(exists|u: int| 0 <= u < t + 1 && combination@[u] == m);
                } else {
                    assert(polynomial@.coeffs[m] == before[m]);
                    if exists|u: int| 0 <= u < t + 1 && combination@[u] == m {
                        let u = choose|u: int| 0 <= u < t + 1 && combination@[u] == m;
                        assert(u < t);
                        assert(exists|u2: int| 0 <= u2 < t && combination@[u2] == m);
                    } else {
                        assert(!exists|u: int| 0 <= u < t && combination@[u] == m);
                    }
                }
            }
        }
        t += 1;
    }
    proof {
        assert forall|m: int|
            0 <= m < pre.len() implies #[trigger] polynomial@.coeffs[m] == pre[m] + (if
        spec_in_combo(combination@, m) {
            delta as int
        } else {
            0
        }) by {
            if spec_in_combo(combination@, m) {
                assert(exists|u: int| 0 <= u < k && combination@[u] == m);
            }
        }
    }
    true
}

/// Halving-step descent towards the cone boundary along the chosen
/// coefficient subset, guarded by the verifier.  While the candidate
/// passes, it is recorded as last-known-good and pushed further down;
/// on a failure the last decrement is undone and the step halves
/// (before the revert once a pass has happened, after it otherwise).
/// The recorded polynomial is returned only when it fails strict
/// non-negativity within the boundary tolerance: a fully non-negative
/// outcome carries no boundary information.
///
/// The result, when present, differs from the seed by one common
/// shift applied to exactly the chosen subset, passed the verifier
/// immediately before its final decrement, has a coefficient below
/// the tolerance, and its descent is exhausted: some step above the
/// stopping threshold pushes it to a candidate the verifier rejects
/// or out of the coefficient range.  A seed that itself passes the
/// verifier is never raised anywhere, and when it already fails the
/// tolerance a result is guaranteed.  Nothing comes back only when
/// either the seed itself fails the verifier (so a pass may never have
/// happened), or the walk's last-known-good polynomial is already
/// non-negative within the tolerance: the contract then names such a
/// verifier-passing, tolerance-clean, descent-exhausted shift of the
/// seed.
pub fn minimize_polynomial_coefficients(
    polynomial: Polynomial,
    combination: &Vec<usize>,
    polynomial_verifier: &crate::polynomial_verifier::PolynomialVerifier,
) -> (r: Option<Polynomial>)
    requires
        polynomial.wf(),
        polynomial_verifier.wf(),
        polynomial@.size == polynomial_verifier.spec_size(),
        combination@.len() >= 1,
        spec_is_combination(combination@, polynomial@.coeffs.len(), combination@.len() as nat),
    ensures
        match r {
            Some(p) => {
                &&& p.wf()
                &&& p@.size == polynomial@.size
                &&& p@.coeffs.len() == polynomial@.coeffs.len()
                &&& polynomial_verifier.spec_test(p@)
                &&& !spec_all_at_least(p@.coeffs, BOUNDARY_TOLERANCE as int)
                &&& exists|delta: int|
                    p@.coeffs == (#[trigger] spec_shift_view(
                        polynomial@,
                        combination@,
                        delta,
                    )).coeffs
                &&& spec_descent_blocked(polynomial_verifier, p@, combination@)
                &&& polynomial_verifier.spec_test(polynomial@) ==> forall|m: int|
                    0 <= m < polynomial@.coeffs.len() ==> #[trigger] p@.coeffs[m]
                        <= polynomial@.coeffs[m]
            },
            None => !polynomial_verifier.spec_test(polynomial@) || (exists|
                v: crate::polynomial::PolyView,
            |
                {
                    &&& v.size == polynomial@.size
                    &&& (exists|delta: int|
                        v.coeffs == (#[trigger] spec_shift_view(
                            polynomial@,
                            combination@,
                            delta,
                        )).coeffs)
                    &&& polynomial_verifier.spec_test(v)
                    &&& spec_all_at_least(v.coeffs, BOUNDARY_TOLERANCE as int)
                    &&& #[trigger] spec_descent_blocked(polynomial_verifier, v, combination@)
                }),
        },
        polynomial_verifier.spec_test(polynomial@) && !spec_all_at_least(
            polynomial@.coeffs,
            BOUNDARY_TOLERANCE as int,
        ) ==> r is Some,
{
    let ghost input_view = polynomial@;
    let ghost st = polynomial_verifier.spec_test(input_view);
    let mut polynomial = polynomial;
    let mut backoff: i64 = MINIMIZER_STEP_INIT;
    let mut did_pass: bool = false;
    let mut old_polynomial: Option<Polynomial> = None;
    let ghost mut dist: int = 0int;
    let ghost mut total: int = 0int;
    let ghost mut lg_total: int = 0int;
    let ghost mut bexp: nat = 19nat;
    proof {
        assert(spec_pow2(19) == 524288) by {
            reveal_with_fuel(spec_pow2, 21);
        }
        assert(spec_shifted(input_view.coeffs, polynomial@.coeffs, combination@, 0int));
    }
    while backoff > MINIMIZER_STEP_MIN
        invariant_except_break
            polynomial.wf(),
            polynomial@.size == input_view.size,
            polynomial@.coeffs.len() == input_view.coeffs.len(),
            polynomial_verifier.wf(),
            input_view.size == polynomial_verifier.spec_size(),
            combination@.len() >= 1,
            spec_is_combination(combination@, input_view.coeffs.len(), combination@.len() as nat),
            st == polynomial_verifier.spec_test(input_view),
            1 <= backoff <= MINIMIZER_STEP_INIT,
            backoff as int == spec_pow2(bexp),
            did_pass ==> backoff > MINIMIZER_STEP_MIN,
            spec_shifted(input_view.coeffs, polynomial@.coeffs, combination@, total),
            match old_polynomial {
                Some(lg) => {
                    &&& lg.wf()
                    &&& polynomial_verifier.spec_test(lg@)
                    &&& lg@.size == input_view.size
                    &&& lg@.coeffs.len() == input_view.coeffs.len()
                    &&& spec_shifted(input_view.coeffs, lg@.coeffs, combination@, lg_total)
                    &&& spec_shifted(lg@.coeffs, polynomial@.coeffs, combination@, -dist)
                    &&& 0 <= dist
                    &&& (dist == backoff as int || (!did_pass && dist == 0))
                    &&& !did_pass ==> spec_descent_blocked(polynomial_verifier, lg@, combination@)
                },
                None => !did_pass,
            },
            st && old_polynomial is None ==> backoff == MINIMIZER_STEP_INIT,
            st ==> match old_polynomial {
                None => polynomial@.coeffs == input_view.coeffs,
                Some(lg) => forall|m: int|
                    0 <= m < input_view.coeffs.len() ==> #[trigger] lg@.coeffs[m]
                        <= input_view.coeffs[m],
            },
        ensures
            polynomial_verifier.wf(),
            match old_polynomial {
                Some(lg) => {
                    &&& lg.wf()
                    &&& polynomial_verifier.spec_test(lg@)
                    &&& lg@.size == input_view.size
                    &&& lg@.coeffs.len() == input_view.coeffs.len()
                    &&& spec_shifted(input_view.coeffs, lg@.coeffs, combination@, lg_total)
                    &&& spec_descent_blocked(polynomial_verifier, lg@, combination@)
                },
                None => true,
            },
            st ==> match old_polynomial {
                None => false,
                Some(lg) => forall|m: int|
                    0 <= m < input_view.coeffs.len() ==> #[trigger] lg@.coeffs[m]
                        <= input_view.coeffs[m],
            },
        decreases backoff,
            spec_combo_sum(polynomial@.coeffs, combination@) + combination@.len() * (
            COEFF_LIMIT as int),
    {
        proof {
            lemma_combo_sum_bounds(polynomial@.coeffs, combination@);
        }
        if polynomial_verifier.test_polynomial(&polynomial) {
            proof {
                if st {
                    match &old_polynomial {
                        Some(lg) => {
                            assert forall|m: int|
                                0 <= m < input_view.coeffs.len() implies #[trigger] polynomial@.coeffs[m]
                                <= input_view.coeffs[m] by {
                                assert(polynomial@.coeffs[m] == lg@.coeffs[m] + if spec_in_combo(
                                    combination@,
                                    m,
                                ) {
                                    -dist
                                } else {
                                    0int
                                });
                            }
                        },
                        None => {},
                    }
                }
            }
            let recorded = polynomial.clone();
            proof {
                assert(recorded@.coeffs =~= polynomial@.coeffs);
            }
            old_polynomial = Some(recorded);
            proof {
                lg_total = total;
            }
            let ghost pre = polynomial@.coeffs;
            let ghost pre_view = polynomial@;
            let ok = shift_combination(&mut polynomial, combination, -backoff);
            did_pass = true;
            proof {
                dist = backoff as int;
            }
            if !ok {
                proof {
                    let lg = match &old_polynomial {
                        Some(lg) => lg,
                        None => proof_from_false(),
                    };
                    assert(lg@ == pre_view) by {
                        assert(lg@.coeffs == pre_view.coeffs);
                        assert(lg@ == crate::polynomial::PolyView {
                            coeffs: lg@.coeffs,
                            size: lg@.size,
                        });
                    }
                    assert(spec_probe_rejected(
                        polynomial_verifier,
                        lg@,
                        combination@,
                        backoff as int,
                    ));
                    assert(MINIMIZER_STEP_MIN < backoff as int <= MINIMIZER_STEP_INIT as int);
                    assert(spec_descent_blocked(polynomial_verifier, lg@, combination@));
                }
                break;
            }
            proof {
                lemma_shift_compose(
                    input_view.coeffs,
                    pre,
                    polynomial@.coeffs,
                    combination@,
                    total,
                    -(backoff as int),
                );
                total = total - backoff as int;
                assert forall|t: int|
                    0 <= t < combination@.len() implies spec_in_combo(
                    combination@,
                    #[trigger] combination@[t] as int,
                ) && (combination@[t] as int) < pre.len() by {
                    assert(combination@[t] == combination@[t]);
                }
                lemma_combo_sum_shifted(
                    pre,
                    polynomial@.coeffs,
                    combination@,
                    combination@,
                    -(backoff as int),
                );
                assert(combination@.len() * (-(backoff as int)) <= -(backoff as int))
                    by (nonlinear_arith)
                    requires
                        combination@.len() >= 1,
                        backoff >= 1,
                ;
                lemma_combo_sum_bounds(polynomial@.coeffs, combination@);
            }
        } else {
            proof {
                match &old_polynomial {
                    Some(lg) => {
                        if dist == 0 {
                            assert(polynomial@.coeffs =~= lg@.coeffs);
                            assert(polynomial_verifier.spec_test(polynomial@)
                                == polynomial_verifier.spec_test(lg@));
                            assert(false);
                        }
                        assert(dist == backoff as int);
                        assert(polynomial@ == spec_shift_view(lg@, combination@, -dist)) by {
                            assert(polynomial@.coeffs =~= spec_shift_view(
                                lg@,
                                combination@,
                                -dist,
                            ).coeffs);
                            assert(polynomial@ == crate::polynomial::PolyView {
                                coeffs: polynomial@.coeffs,
                                size: polynomial@.size,
                            });
                        }
                        assert(!polynomial_verifier.spec_test(spec_shift_view(
                            lg@,
                            combination@,
                            -(backoff as int),
                        )));
                        assert(spec_probe_rejected(
                            polynomial_verifier,
                            lg@,
                            combination@,
                            backoff as int,
                        ));
                        assert(MINIMIZER_STEP_MIN < backoff as int
                            <= MINIMIZER_STEP_INIT as int);
                        assert(spec_descent_blocked(polynomial_verifier, lg@, combination@));
                    },
                    None => {
                        if st {
                            assert(polynomial@.coeffs =~= input_view.coeffs);
                            assert(polynomial_verifier.spec_test(polynomial@) == st);
                            assert(false);
                        }
                    },
                }
            }
            if did_pass {
                proof {
                    assert(bexp >= 1) by {
                        if bexp == 0 {
                            assert(spec_pow2(0) == 1);
                        }
                    }
                    assert(backoff as int == 2 * spec_pow2((bexp - 1) as nat));
                    lemma_pow2_pos((bexp - 1) as nat);
                    vstd::arithmetic::div_mod::lemma_div_multiples_vanish(
                        spec_pow2((bexp - 1) as nat),
                        2,
                    );
                }
                backoff = ((backoff as u64) / 2) as i64;
                proof {
                    bexp = (bexp - 1) as nat;
                    assert(backoff as int == spec_pow2(bexp));
                }
            }
            let ghost pre = polynomial@.coeffs;
            let ok = shift_combination(&mut polynomial, combination, backoff);
            proof {
                dist = dist - backoff as int;
            }
            if !ok {
                break;
            }
            proof {
                lemma_shift_compose(
                    input_view.coeffs,
                    pre,
                    polynomial@.coeffs,
                    combination@,
                    total,
                    backoff as int,
                );
                total = total + backoff as int;
                match &old_polynomial {
                    Some(lg) => {
                        assert forall|m: int|
                            0 <= m < input_view.coeffs.len() implies #[trigger] polynomial@.coeffs[m]
                            == lg@.coeffs[m] + (if spec_in_combo(combination@, m) {
                            -dist
                        } else {
                            0int
                        }) by {
                            assert(polynomial@.coeffs[m] == pre[m] + if spec_in_combo(
                                combination@,
                                m,
                            ) {
                                backoff as int
                            } else {
                                0int
                            });
                        }
                    },
                    None => {},
                }
                lemma_combo_sum_bounds(polynomial@.coeffs, combination@);
            }
            if !did_pass {
                proof {
                    assert(bexp >= 1) by {
                        if bexp == 0 {
                            assert(spec_pow2(0) == 1);
                        }
                    }
                    assert(backoff as int == 2 * spec_pow2((bexp - 1) as nat));
                    lemma_pow2_pos((bexp - 1) as nat);
                    vstd::arithmetic::div_mod::lemma_div_multiples_vanish(
                        spec_pow2((bexp - 1) as nat),
                        2,
                    );
                }
                backoff = ((backoff as u64) / 2) as i64;
                proof {
                    bexp = (bexp - 1) as nat;
                }
            }
            did_pass = false;
        }
    }
    match old_polynomial {
        Some(p) => {
            if !p.is_polynomial_nonnegative_with_threshold(BOUNDARY_TOLERANCE) {
                proof {
                    assert(p@.coeffs =~= spec_shift_view(
                        input_view,
                        combination@,
                        lg_total,
                    ).coeffs);
                    assert(exists|delta: int|
                        p@.coeffs == (#[trigger] spec_shift_view(
                            input_view,
                            combination@,
                            delta,
                        )).coeffs);
                }
                Some(p)
            } else {
                proof {
                    if st && !spec_all_at_least(input_view.coeffs, BOUNDARY_TOLERANCE as int) {
                        let w = choose|w: int|
                            0 <= w < input_view.coeffs.len() && !(input_view.coeffs[w]
                                >= BOUNDARY_TOLERANCE as int);
                        assert(p@.coeffs[w] <= input_view.coeffs[w]);
                        assert(false);
                    }
                    assert(p@.coeffs =~= spec_shift_view(
                        input_view,
                        combination@,
                        lg_total,
                    ).coeffs);
                    assert(exists|delta: int|
                        p@.coeffs == (#[trigger] spec_shift_view(
                            input_view,
                            combination@,
                            delta,
                        )).coeffs);
                    assert(spec_descent_blocked(polynomial_verifier, p@, combination@));
                }
                None
            }
        },
        None => {
            proof {
                if st && !spec_all_at_least(input_view.coeffs, BOUNDARY_TOLERANCE as int) {
                    assert(false);
                }
            }
            None
        },
    }
}

/// `out` is a possible minimizer result for `seed` along `combo`:
/// same shape, shifted from the seed by one common delta on exactly
/// the combination, passing the verifier, breaching the boundary
/// tolerance, and with its descent exhausted.
pub open spec fn spec_minimizer_outcome(
    verifier: &crate::polynomial_verifier::PolynomialVerifier,
    seed: crate::polynomial::PolyView,
    out: crate::polynomial::PolyView,
    combo: Seq<usize>,
) -> bool {
    &&& out.size == seed.size
    &&& out.coeffs.len() == seed.coeffs.len()
    &&& verifier.spec_test(out)
    &&& !spec_all_at_least(out.coeffs, BOUNDARY_TOLERANCE as int)
    &&& exists|delta: int| out.coeffs == (#[trigger] spec_shift_view(seed, combo, delta)).coeffs
    &&& spec_descent_blocked(verifier, out, combo)
}

/// `out` is a possible minimizer result of one of the seed
/// polynomials along the combination.
pub open spec fn spec_batch_member(
    verifier: &crate::polynomial_verifier::PolynomialVerifier,
    seeds: Seq<Polynomial>,
    out: crate::polynomial::PolyView,
    combo: Seq<usize>,
) -> bool {
    exists|j: int|
        0 <= j < seeds.len() && #[trigger] spec_minimizer_outcome(verifier, seeds[j]@, out, combo)
}

/// `raw` holds some minimizer outcome of `seed` along the
/// combination.
pub open spec fn spec_contains_outcome_of(
    verifier: &crate::polynomial_verifier::PolynomialVerifier,
    raw: Seq<crate::polynomial::PolyView>,
    seed: crate::polynomial::PolyView,
    combo: Seq<usize>,
) -> bool {
    exists|i: int|
        0 <= i < raw.len() && #[trigger] spec_minimizer_outcome(verifier, seed, raw[i], combo)
}

/// The minimizer can come back empty-handed for `seed` along the
/// combination: either the seed itself fails the verifier, or a
/// verifier-passing, tolerance-clean, descent-exhausted shift of the
/// seed exists (the walk's last-known-good polynomial).
pub open spec fn spec_no_boundary_found(
    verifier: &crate::polynomial_verifier::PolynomialVerifier,
    seed: crate::polynomial::PolyView,
    combo: Seq<usize>,
) -> bool {
    !verifier.spec_test(seed) || (exists|v: crate::polynomial::PolyView|
        {
            &&& v.size == seed.size
            &&& (exists|delta: int|
                v.coeffs == (#[trigger] spec_shift_view(seed, combo, delta)).coeffs)
            &&& verifier.spec_test(v)
            &&& spec_all_at_least(v.coeffs, BOUNDARY_TOLERANCE as int)
            &&& #[trigger] spec_descent_blocked(verifier, v, combo)
        })
}

/// Every member of `vs` is a boundary candidate of the given shape:
/// it passes the verifier and breaches the boundary tolerance.
pub open spec fn spec_boundary_views(
    verifier: &crate::polynomial_verifier::PolynomialVerifier,
    vs: Seq<crate::polynomial::PolyView>,
    size: nat,
    len: nat,
) -> bool {
    forall|i: int| #![trigger vs[i]]
        0 <= i < vs.len() ==> {
            &&& vs[i].size == size
            &&& vs[i].coeffs.len() == len
            &&& verifier.spec_test(vs[i])
            &&& !spec_all_at_least(vs[i].coeffs, BOUNDARY_TOLERANCE as int)
        }
}

/// Minimizes every seed polynomial against the chosen coefficient
/// subset, keeps the boundary candidates the minimizer found, and
/// collapses them to an antichain.  The collapsed batch is pinned in
/// both directions: every member is a minimizer outcome of one of the
/// seeds, and every seed that passes the verifier and already
/// breaches the tolerance contributes an outcome.
#[verifier::rlimit(100)]
pub fn mutate_coefficients(
    polynomials: Vec<Polynomial>,
    combination: &Vec<usize>,
    polynomial_verifier: &crate::polynomial_verifier::PolynomialVerifier,
) -> (r: Vec<Polynomial>)
    requires
        polynomial_verifier.wf(),
        combination@.len() >= 1,
        forall|i: int| 0 <= i < polynomials@.len() ==> #[trigger] polynomials@[i].wf(),
        forall|i: int|
            0 <= i < polynomials@.len() ==> #[trigger] polynomials@[i]@.size
                == polynomial_verifier.spec_size(),
        forall|i: int|
            0 <= i < polynomials@.len() ==> spec_is_combination(
                combination@,
                #[trigger] polynomials@[i]@.coeffs.len(),
                combination@.len() as nat,
            ),
    ensures
        forall|i: int| 0 <= i < r@.len() ==> #[trigger] r@[i].wf(),
        (exists|i: int|
            0 <= i < polynomials@.len() && polynomial_verifier.spec_test(
                (#[trigger] polynomials@[i])@,
            ) && !spec_all_at_least(polynomials@[i]@.coeffs, BOUNDARY_TOLERANCE as int))
            ==> r@.len() >= 1,
        exists|raw: Seq<crate::polynomial::PolyView>|
            {
                &&& crate::collapse::spec_poly_views(r@)
                    == #[trigger] crate::collapse::spec_collapse(raw)
                &&& (forall|i: int| #![trigger raw[i]]
                    0 <= i < raw.len() ==> spec_batch_member(
                        polynomial_verifier,
                        polynomials@,
                        raw[i],
                        combination@,
                    ))
                &&& (forall|j: int| #![trigger polynomials@[j]]
                    0 <= j < polynomials@.len() && polynomial_verifier.spec_test(
                        polynomials@[j]@,
                    ) && !spec_all_at_least(polynomials@[j]@.coeffs, BOUNDARY_TOLERANCE as int)
                        ==> spec_contains_outcome_of(
                        polynomial_verifier,
                        raw,
                        polynomials@[j]@,
                        combination@,
                    ))
                &&& (forall|j: int| #![trigger polynomials@[j]]
                    0 <= j < polynomials@.len() ==> spec_contains_outcome_of(
                        polynomial_verifier,
                        raw,
                        polynomials@[j]@,
                        combination@,
                    ) || spec_no_boundary_found(
                        polynomial_verifier,
                        polynomials@[j]@,
                        combination@,
                    ))
            },
{
    let n = polynomials.len();
    let mut negative_polynomials: Vec<Polynomial> = Vec::new();
    let mut i: usize = 0;
    while i < n
        invariant
            i <= n,
            n as nat == polynomials@.len(),
            polynomial_verifier.wf(),
            combination@.len() >= 1,
            forall|t: int| 0 <= t < polynomials@.len() ==> #[trigger] polynomials@[t].wf(),
            forall|t: int|
                0 <= t < polynomials@.len() ==> #[trigger] polynomials@[t]@.size
                    == polynomial_verifier.spec_size(),
            forall|t: int|
                0 <= t < polynomials@.len() ==> spec_is_combination(
                    combination@,
                    #[trigger] polynomials@[t]@.coeffs.len(),
                    combination@.len() as nat,
                ),
            forall|t: int| 0 <= t < negative_polynomials@.len() ==> #[trigger] negative_polynomials@[t].wf(),
            (exists|t: int|
                0 <= t < i && polynomial_verifier.spec_test((#[trigger] polynomials@[t])@)
                    && !spec_all_at_least(
                    polynomials@[t]@.coeffs,
                    BOUNDARY_TOLERANCE as int,
                )) ==> negative_polynomials@.len() >= 1,
            forall|t: int| #![trigger negative_polynomials@[t]]
                0 <= t < negative_polynomials@.len() ==> spec_batch_member(
                    polynomial_verifier,
                    polynomials@,
                    negative_polynomials@[t]@,
                    combination@,
                ),
            forall|j: int| #![trigger polynomials@[j]]
                0 <= j < i && polynomial_verifier.spec_test(polynomials@[j]@)
                    && !spec_all_at_least(polynomials@[j]@.coeffs, BOUNDARY_TOLERANCE as int)
                    ==> spec_contains_outcome_of(
                    polynomial_verifier,
                    crate::collapse::spec_poly_views(negative_polynomials@),
                    polynomials@[j]@,
                    combination@,
                ),
            forall|j: int| #![trigger polynomials@[j]]
                0 <= j < i ==> spec_contains_outcome_of(
                    polynomial_verifier,
                    crate::collapse::spec_poly_views(negative_polynomials@),
                    polynomials@[j]@,
                    combination@,
                ) || spec_no_boundary_found(
                    polynomial_verifier,
                    polynomials@[j]@,
                    combination@,
                ),
        decreases n - i,
    {
        proof {
            assert(polynomials@[i as int].wf());
        }
        let seed = polynomials[i].clone();
        proof {
            assert(seed@.coeffs =~= polynomials@[i as int]@.coeffs);
        }
        proof {
            if polynomial_verifier.spec_test(polynomials@[i as int]@) && !spec_all_at_least(
                polynomials@[i as int]@.coeffs,
                BOUNDARY_TOLERANCE as int,
            ) {
                assert(seed@ == polynomials@[i as int]@);
            }
        }
        let minimized = minimize_polynomial_coefficients(seed, combination, polynomial_verifier);
        match minimized {
            Some(p) => {
                let ghost pv = p@;
                let ghost neg0 = negative_polynomials@;
                negative_polynomials.push(p);
                proof {
                    assert(seed@ == polynomials@[i as int]@) by {
                        assert(seed@.coeffs == polynomials@[i as int]@.coeffs);
                        assert(seed@ == crate::polynomial::PolyView {
                            coeffs: seed@.coeffs,
                            size: seed@.size,
                        });
                    }
                    assert forall|t: int| #![trigger negative_polynomials@[t]]
                        0 <= t < negative_polynomials@.len() implies spec_batch_member(
                        polynomial_verifier,
                        polynomials@,
                        negative_polynomials@[t]@,
                        combination@,
                    ) by {
                        if t < neg0.len() {
                            assert(negative_polynomials@[t] == neg0[t]);
                            assert(spec_batch_member(
                                polynomial_verifier,
                                polynomials@,
                                neg0[t]@,
                                combination@,
                            ));
                        } else {
                            assert(negative_polynomials@[t]@ == pv);
                            assert(spec_minimizer_outcome(
                                polynomial_verifier,
                                polynomials@[i as int]@,
                                negative_polynomials@[t]@,
                                combination@,
                            ));
                            assert(spec_batch_member(
                                polynomial_verifier,
                                polynomials@,
                                negative_polynomials@[t]@,
                                combination@,
                            ));
                        }
                    }
                    let newviews = crate::collapse::spec_poly_views(negative_polynomials@);
                    let oldviews = crate::collapse::spec_poly_views(neg0);
                    assert forall|j: int| #![trigger polynomials@[j]]
                        0 <= j < i + 1 && spec_contains_outcome_of(
                            polynomial_verifier,
                            oldviews,
                            polynomials@[j]@,
                            combination@,
                        ) || j == i implies spec_contains_outcome_of(
                        polynomial_verifier,
                        newviews,
                        polynomials@[j]@,
                        combination@,
                    ) by {
                        if j != i as int && spec_contains_outcome_of(
                            polynomial_verifier,
                            oldviews,
                            polynomials@[j]@,
                            combination@,
                        ) {
                            let i0 = choose|i0: int|
                                0 <= i0 < oldviews.len() && #[trigger] spec_minimizer_outcome(
                                    polynomial_verifier,
                                    polynomials@[j]@,
                                    oldviews[i0],
                                    combination@,
                                );
                            assert(newviews[i0] == negative_polynomials@[i0]@);
                            assert(negative_polynomials@[i0] == neg0[i0]);
                            assert(newviews[i0] == oldviews[i0]);
                            assert(spec_minimizer_outcome(
                                polynomial_verifier,
                                polynomials@[j]@,
                                newviews[i0],
                                combination@,
                            ));
                        } else {
                            let last = newviews.len() - 1;
                            assert(newviews[last] == pv);
                            assert(spec_minimizer_outcome(
                                polynomial_verifier,
                                polynomials@[j]@,
                                newviews[last],
                                combination@,
                            ));
                        }
                    }
                }
            },
            None => {
                proof {
                    assert(seed@ == polynomials@[i as int]@) by {
                        assert(seed@.coeffs == polynomials@[i as int]@.coeffs);
                        assert(seed@ == crate::polynomial::PolyView {
                            coeffs: seed@.coeffs,
                            size: seed@.size,
                        });
                    }
                    if polynomial_verifier.spec_test(polynomials@[i as int]@)
                        && !spec_all_at_least(
                        polynomials@[i as int]@.coeffs,
                        BOUNDARY_TOLERANCE as int,
                    ) {
                        assert(false);
                    }
                    assert(spec_no_boundary_found(
                        polynomial_verifier,
                        polynomials@[i as int]@,
                        combination@,
                    ));
                }
            },
        }
        i += 1;
    }
    let r = crate::collapse::collapse_polynomials(&negative_polynomials);
    proof {
        let raw = crate::collapse::spec_poly_views(negative_polynomials@);
        if negative_polynomials@.len() >= 1 {
            crate::collapse::lemma_collapse_nonempty(raw);
        }
        assert forall|t: int| #![trigger raw[t]]
            0 <= t < raw.len() implies spec_batch_member(
            polynomial_verifier,
            polynomials@,
            raw[t],
            combination@,
        ) by {
            assert(raw[t] == negative_polynomials@[t]@);
            assert(spec_batch_member(
                polynomial_verifier,
                polynomials@,
                negative_polynomials@[t]@,
                combination@,
            ));
        }
        assert forall|j: int| #![trigger polynomials@[j]]
            0 <= j < polynomials@.len() && polynomial_verifier.spec_test(polynomials@[j]@)
                && !spec_all_at_least(
                polynomials@[j]@.coeffs,
                BOUNDARY_TOLERANCE as int,
            ) implies spec_contains_outcome_of(
            polynomial_verifier,
            raw,
            polynomials@[j]@,
            combination@,
        ) by {}
        assert forall|j: int| #![trigger polynomials@[j]]
            0 <= j < polynomials@.len() implies spec_contains_outcome_of(
            polynomial_verifier,
            raw,
            polynomials@[j]@,
            combination@,
        ) || spec_no_boundary_found(polynomial_verifier, polynomials@[j]@, combination@) by {}
        assert(crate::collapse::spec_poly_views(r@) == crate::collapse::spec_collapse(raw));
    }
    r
}

/// The driver absorbs one batch of boundary candidates after another
/// into the accumulated interesting set.
pub open spec fn spec_absorb(
    interesting: Seq<crate::polynomial::PolyView>,
    batches: Seq<Seq<crate::polynomial::PolyView>>,
) -> Seq<crate::polynomial::PolyView>
    decreases batches.len(),
{
    if batches.len() == 0 {
        interesting
    } else {
        spec_absorb(interesting + batches[0], batches.drop_first())
    }
}

/// `out` is a possible minimizer result of one of the seed views
/// along the combination.
pub open spec fn spec_outcome_of_seeds(
    verifier: &crate::polynomial_verifier::PolynomialVerifier,
    seeds: Seq<crate::polynomial::PolyView>,
    out: crate::polynomial::PolyView,
    combo: Seq<usize>,
) -> bool {
    exists|j: int|
        0 <= j < seeds.len() && #[trigger] spec_minimizer_outcome(verifier, seeds[j], out, combo)
}

/// `batch` is a per-subset sweep result for the given seeds: every
/// member is a minimizer outcome of one of the seeds against `combo`,
/// and a seed that passes the verifier while already breaching the
/// tolerance forces at least one member.
pub open spec fn spec_subset_batch(
    verifier: &crate::polynomial_verifier::PolynomialVerifier,
    seeds: Seq<crate::polynomial::PolyView>,
    combo: Seq<usize>,
    batch: Seq<crate::polynomial::PolyView>,
) -> bool {
    &&& forall|i: int| #![trigger batch[i]]
        0 <= i < batch.len() ==> spec_outcome_of_seeds(verifier, seeds, batch[i], combo)
    &&& (exists|j: int|
        0 <= j < seeds.len() && verifier.spec_test(#[trigger] seeds[j]) && !spec_all_at_least(
            seeds[j].coeffs,
            BOUNDARY_TOLERANCE as int,
        )) ==> batch.len() >= 1
}

/// Every pair of the sweep holds a per-subset batch of the seeds.
pub open spec fn spec_swept(
    verifier: &crate::polynomial_verifier::PolynomialVerifier,
    seeds: Seq<crate::polynomial::PolyView>,
    pairs: Seq<(Seq<usize>, Seq<crate::polynomial::PolyView>)>,
) -> bool {
    forall|c: int| #![trigger pairs[c]]
        0 <= c < pairs.len() ==> spec_subset_batch(verifier, seeds, pairs[c].0, pairs[c].1)
}

/// The subsets of a sweep, in order.
pub open spec fn spec_pair_combos(
    pairs: Seq<(Seq<usize>, Seq<crate::polynomial::PolyView>)>,
) -> Seq<Seq<usize>> {
    Seq::new(pairs.len(), |c: int| pairs[c].0)
}

/// The batches of a sweep, in order.
pub open spec fn spec_pair_batches(
    pairs: Seq<(Seq<usize>, Seq<crate::polynomial::PolyView>)>,
) -> Seq<Seq<crate::polynomial::PolyView>> {
    Seq::new(pairs.len(), |c: int| pairs[c].1)
}

/// The concatenation of the first `g` subset groups, the empty-subset
/// group left out.
pub open spec fn spec_concat_upto(groups: Seq<Vec<Vec<usize>>>, g: int) -> Seq<Seq<usize>>
    decreases g,
{
    if g <= 1 {
        Seq::empty()
    } else {
        spec_concat_upto(groups, g - 1) + crate::current_state::spec_combo_views(groups[g - 1]@)
    }
}

/// Every non-empty subset still to process, in the stored order:
/// group after group, the empty-subset group left out.
pub open spec fn spec_remaining_subsets(groups: Seq<Vec<Vec<usize>>>) -> Seq<Seq<usize>> {
    spec_concat_upto(groups, groups.len() as int)
}

/// Position `c` of the first `g` concatenated groups falls inside
/// group `a` at offset `j`.
spec fn spec_decomposed(groups: Seq<Vec<Vec<usize>>>, g: int, c: int, a: int, j: int) -> bool {
    &&& 1 <= a < g
    &&& 0 <= j < groups[a]@.len()
    &&& j == c - spec_concat_upto(groups, a).len()
    &&& spec_concat_upto(groups, g)[c] == groups[a]@[j]@
    &&& spec_concat_upto(groups, a).len() <= c < spec_concat_upto(groups, a + 1).len()
}

/// Every position of the concatenated groups decomposes into a group
/// and an offset.
proof fn lemma_concat_decompose(groups: Seq<Vec<Vec<usize>>>, g: int, c: int)
    requires
        1 <= g <= groups.len(),
        0 <= c < spec_concat_upto(groups, g).len(),
    ensures
        exists|a: int, j: int| #[trigger] spec_decomposed(groups, g, c, a, j),
    decreases g,
{
    if c < spec_concat_upto(groups, g - 1).len() {
        lemma_concat_decompose(groups, g - 1, c);
        let (a, j) = choose|a: int, j: int| #[trigger] spec_decomposed(groups, g - 1, c, a, j);
        assert(spec_concat_upto(groups, g)[c] == spec_concat_upto(groups, g - 1)[c]);
        assert(spec_decomposed(groups, g, c, a, j));
    } else {
        let a = g - 1;
        let j = c - spec_concat_upto(groups, g - 1).len();
        assert(spec_concat_upto(groups, g)[c] == crate::current_state::spec_combo_views(
            groups[a]@,
        )[j]);
        assert(crate::current_state::spec_combo_views(groups[a]@)[j] == groups[a]@[j]@);
        assert(spec_decomposed(groups, g, c, a, j));
    }
}

/// Every group member occurs in the concatenated groups, at its block
/// position.
proof fn lemma_concat_position(groups: Seq<Vec<Vec<usize>>>, g: int, a: int, j: int)
    requires
        1 <= a < g <= groups.len(),
        0 <= j < groups[a]@.len(),
    ensures
        spec_concat_upto(groups, a).len() + j < spec_concat_upto(groups, g).len(),
        spec_concat_upto(groups, g)[spec_concat_upto(groups, a).len() + j] == groups[a]@[j]@,
    decreases g,
{
    if g == a + 1 {
        assert(spec_concat_upto(groups, g)[spec_concat_upto(groups, a).len() + j]
            == crate::current_state::spec_combo_views(groups[a]@)[j]);
        assert(crate::current_state::spec_combo_views(groups[a]@)[j] == groups[a]@[j]@);
    } else {
        lemma_concat_position(groups, g - 1, a, j);
        assert(spec_concat_upto(groups, g)[spec_concat_upto(groups, a).len() + j]
            == spec_concat_upto(groups, g - 1)[spec_concat_upto(groups, a).len() + j]);
    }
}

/// The remaining subsets of a freshly enumerated state form a full
/// sweep: each non-empty subset of fewer than `n` indices exactly
/// once, in non-decreasing size.
#[verifier::rlimit(100)]
proof fn lemma_remaining_full_sweep(groups: Seq<Vec<Vec<usize>>>, n: nat)
    requires
        groups.len() == n,
        forall|a: int, j: int|
            0 <= a < groups.len() && 0 <= j < #[trigger] groups[a]@.len()
                ==> spec_is_combination(#[trigger] groups[a]@[j]@, n, a as nat),
        forall|a: int, s: Seq<usize>|
            0 <= a < groups.len() && #[trigger] spec_is_combination(s, n, a as nat) ==> exists|
                j: int,
            |
                0 <= j < groups[a]@.len() && #[trigger] groups[a]@[j]@ == s,
        forall|a: int, j1: int, j2: int|
            #![trigger groups[a]@[j1], groups[a]@[j2]]
            0 <= a < groups.len() && 0 <= j1 < j2 < groups[a]@.len() ==> groups[a]@[j1]@
                != groups[a]@[j2]@,
    ensures
        spec_full_sweep(spec_remaining_subsets(groups), n),
{
    let combos = spec_remaining_subsets(groups);
    let g = groups.len() as int;
    assert forall|c: int| #![trigger combos[c]]
        0 <= c < combos.len() implies spec_is_combination(combos[c], n, combos[c].len() as nat)
        && 1 <= combos[c].len() by {
        lemma_concat_decompose(groups, g, c);
        let (a, j) = choose|a: int, j: int| #[trigger] spec_decomposed(groups, g, c, a, j);
        assert(spec_is_combination(groups[a]@[j]@, n, a as nat));
    }
    assert forall|c1: int, c2: int|
        #![trigger combos[c1], combos[c2]]
        0 <= c1 < c2 < combos.len() implies combos[c1] != combos[c2] && combos[c1].len()
        <= combos[c2].len() by {
        lemma_concat_decompose(groups, g, c1);
        lemma_concat_decompose(groups, g, c2);
        let (a1, j1) = choose|a: int, j: int| #[trigger] spec_decomposed(groups, g, c1, a, j);
        let (a2, j2) = choose|a: int, j: int| #[trigger] spec_decomposed(groups, g, c2, a, j);
        assert(spec_is_combination(groups[a1]@[j1]@, n, a1 as nat));
        assert(spec_is_combination(groups[a2]@[j2]@, n, a2 as nat));
        if a1 > a2 {
            lemma_upto_len_monotone(groups, a2 + 1, a1);
            assert(false);
        }
        if a1 == a2 {
            assert(j1 < j2);
            assert(groups[a1]@[j1]@ != groups[a1]@[j2]@);
        } else {
            assert(combos[c1].len() == a1 as nat && combos[c2].len() == a2 as nat);
        }
    }
    assert forall|s: Seq<usize>|
        1 <= s.len() < n && #[trigger] spec_is_combination(s, n, s.len() as nat) implies exists|
        c: int,
    |
        0 <= c < combos.len() && combos[c] == s by {
        let a = s.len() as int;
        assert(spec_is_combination(s, n, a as nat));
        let j = choose|j: int| 0 <= j < groups[a]@.len() && #[trigger] groups[a]@[j]@ == s;
        lemma_concat_position(groups, g, a, j);
        let c = spec_concat_upto(groups, a).len() + j;
        assert(0 <= c < combos.len() && combos[c] == s);
    }
}

/// The concatenated length of the first `g` groups grows with `g`.
proof fn lemma_upto_len_monotone(groups: Seq<Vec<Vec<usize>>>, g1: int, g2: int)
    requires
        g1 <= g2,
    ensures
        spec_concat_upto(groups, g1).len() <= spec_concat_upto(groups, g2).len(),
    decreases g2 - g1,
{
    if g1 < g2 {
        lemma_upto_len_monotone(groups, g1, g2 - 1);
    }
}

/// Every member of `vs` breaches the boundary tolerance.
pub open spec fn spec_views_tolerant(vs: Seq<crate::polynomial::PolyView>) -> bool {
    forall|i: int| #![trigger vs[i]]
        0 <= i < vs.len() ==> !spec_all_at_least(vs[i].coeffs, BOUNDARY_TOLERANCE as int)
}

/// Absorbing tolerance-breaching batches into a tolerance-breaching
/// set keeps every member tolerance-breaching.
proof fn lemma_absorb_tolerant(
    interesting: Seq<crate::polynomial::PolyView>,
    batches: Seq<Seq<crate::polynomial::PolyView>>,
)
    requires
        spec_views_tolerant(interesting),
        forall|b: int| 0 <= b < batches.len() ==> spec_views_tolerant(#[trigger] batches[b]),
    ensures
        spec_views_tolerant(spec_absorb(interesting, batches)),
    decreases batches.len(),
{
    if batches.len() == 0 {
    } else {
        assert(spec_views_tolerant(batches[0]));
        assert forall|i: int| #![trigger (interesting + batches[0])[i]]
            0 <= i < (interesting + batches[0]).len() implies !spec_all_at_least(
            (interesting + batches[0])[i].coeffs,
            BOUNDARY_TOLERANCE as int,
        ) by {
            if i < interesting.len() {
                assert((interesting + batches[0])[i] == interesting[i]);
            } else {
                assert((interesting + batches[0])[i] == batches[0][i - interesting.len()]);
            }
        }
        assert forall|b: int|
            0 <= b < batches.drop_first().len() implies spec_views_tolerant(
            #[trigger] batches.drop_first()[b],
        ) by {
            assert(batches.drop_first()[b] == batches[b + 1]);
        }
        lemma_absorb_tolerant(interesting + batches[0], batches.drop_first());
    }
}

/// Every subset of a full sweep is a valid non-empty coefficient
/// subset, no subset repeats, every non-empty subset of fewer than
/// `n` indices occurs, and the subsets come in non-decreasing size.
pub open spec fn spec_full_sweep(combos: Seq<Seq<usize>>, n: nat) -> bool {
    &&& forall|c: int| #![trigger combos[c]]
        0 <= c < combos.len() ==> spec_is_combination(combos[c], n, combos[c].len() as nat)
            && 1 <= combos[c].len()
    &&& forall|c1: int, c2: int|
        #![trigger combos[c1], combos[c2]]
        0 <= c1 < c2 < combos.len() ==> combos[c1] != combos[c2]
    &&& forall|s: Seq<usize>|
        1 <= s.len() < n && #[trigger] spec_is_combination(s, n, s.len() as nat) ==> exists|
            c: int,
        |
            0 <= c < combos.len() && combos[c] == s
    &&& forall|c1: int, c2: int|
        #![trigger combos[c1], combos[c2]]
        0 <= c1 <= c2 < combos.len() ==> combos[c1].len() <= combos[c2].len()
}

/// The seed set and accumulated set after running the given sweeps:
/// each sweep absorbs its batches, collapses, and reseeds.
pub open spec fn spec_chain_state(
    seeds: Seq<crate::polynomial::PolyView>,
    interesting: Seq<crate::polynomial::PolyView>,
    sweeps: Seq<Seq<(Seq<usize>, Seq<crate::polynomial::PolyView>)>>,
) -> (Seq<crate::polynomial::PolyView>, Seq<crate::polynomial::PolyView>)
    decreases sweeps.len(),
{
    if sweeps.len() == 0 {
        (seeds, interesting)
    } else {
        let next = crate::collapse::spec_collapse(
            spec_absorb(interesting, spec_pair_batches(sweeps[0])),
        );
        spec_chain_state(next, next, sweeps.drop_first())
    }
}

/// Every sweep of the chain is a full sweep of valid subsets whose
/// batches are per-subset sweep results of the then-current seeds.
pub open spec fn spec_generation_chain(
    verifier: &crate::polynomial_verifier::PolynomialVerifier,
    seeds: Seq<crate::polynomial::PolyView>,
    interesting: Seq<crate::polynomial::PolyView>,
    sweeps: Seq<Seq<(Seq<usize>, Seq<crate::polynomial::PolyView>)>>,
    n: nat,
) -> bool
    decreases sweeps.len(),
{
    if sweeps.len() == 0 {
        true
    } else {
        let pairs = sweeps[0];
        let next = crate::collapse::spec_collapse(
            spec_absorb(interesting, spec_pair_batches(pairs)),
        );
        &&& spec_full_sweep(spec_pair_combos(pairs), n)
        &&& spec_swept(verifier, seeds, pairs)
        &&& spec_generation_chain(verifier, next, next, sweeps.drop_first(), n)
    }
}

/// Appending one more sweep to a chain steps the chain state once.
proof fn lemma_chain_state_snoc(
    seeds: Seq<crate::polynomial::PolyView>,
    interesting: Seq<crate::polynomial::PolyView>,
    sweeps: Seq<Seq<(Seq<usize>, Seq<crate::polynomial::PolyView>)>>,
    pairs: Seq<(Seq<usize>, Seq<crate::polynomial::PolyView>)>,
)
    ensures
        spec_chain_state(seeds, interesting, sweeps.push(pairs)) == {
            let next = crate::collapse::spec_collapse(
                spec_absorb(
                    spec_chain_state(seeds, interesting, sweeps).1,
                    spec_pair_batches(pairs),
                ),
            );
            (next, next)
        },
    decreases sweeps.len(),
{
    if sweeps.len() == 0 {
        let next0 = crate::collapse::spec_collapse(
            spec_absorb(interesting, spec_pair_batches(pairs)),
        );
        assert(sweeps.push(pairs)[0] == pairs);
        assert(sweeps.push(pairs).drop_first() =~= sweeps);
        assert(spec_chain_state(next0, next0, sweeps) == (next0, next0));
        assert(spec_chain_state(seeds, interesting, sweeps.push(pairs)) == spec_chain_state(
            next0,
            next0,
            sweeps.push(pairs).drop_first(),
        ));
        assert(spec_chain_state(seeds, interesting, sweeps) == (seeds, interesting));
    } else {
        assert(sweeps.push(pairs)[0] == sweeps[0]);
        assert(sweeps.push(pairs).drop_first() =~= sweeps.drop_first().push(pairs));
        let next = crate::collapse::spec_collapse(
            spec_absorb(interesting, spec_pair_batches(sweeps[0])),
        );
        assert(spec_chain_state(seeds, interesting, sweeps.push(pairs)) == spec_chain_state(
            next,
            next,
            sweeps.push(pairs).drop_first(),
        ));
        assert(spec_chain_state(seeds, interesting, sweeps) == spec_chain_state(
            next,
            next,
            sweeps.drop_first(),
        ));
        lemma_chain_state_snoc(next, next, sweeps.drop_first(), pairs);
    }
}

/// Appending a full sweep of the chain's current seeds keeps the
/// chain well-formed.
proof fn lemma_chain_wf_snoc(
    verifier: &crate::polynomial_verifier::PolynomialVerifier,
    seeds: Seq<crate::polynomial::PolyView>,
    interesting: Seq<crate::polynomial::PolyView>,
    sweeps: Seq<Seq<(Seq<usize>, Seq<crate::polynomial::PolyView>)>>,
    pairs: Seq<(Seq<usize>, Seq<crate::polynomial::PolyView>)>,
    n: nat,
)
    requires
        spec_generation_chain(verifier, seeds, interesting, sweeps, n),
        spec_full_sweep(spec_pair_combos(pairs), n),
        spec_swept(verifier, spec_chain_state(seeds, interesting, sweeps).0, pairs),
    ensures
        spec_generation_chain(verifier, seeds, interesting, sweeps.push(pairs), n),
    decreases sweeps.len(),
{
    if sweeps.len() == 0 {
        let next0 = crate::collapse::spec_collapse(
            spec_absorb(interesting, spec_pair_batches(pairs)),
        );
        assert(sweeps.push(pairs)[0] == pairs);
        assert(sweeps.push(pairs).drop_first() =~= sweeps);
        assert(spec_chain_state(seeds, interesting, sweeps).0 == seeds);
        assert(spec_generation_chain(verifier, next0, next0, sweeps, n));
    } else {
        assert(sweeps.push(pairs)[0] == sweeps[0]);
        assert(sweeps.push(pairs).drop_first() =~= sweeps.drop_first().push(pairs));
        let next = crate::collapse::spec_collapse(
            spec_absorb(interesting, spec_pair_batches(sweeps[0])),
        );
        assert(spec_chain_state(seeds, interesting, sweeps) == spec_chain_state(
            next,
            next,
            sweeps.drop_first(),
        ));
        lemma_chain_wf_snoc(verifier, next, next, sweeps.drop_first(), pairs, n);
        assert(spec_generation_chain(verifier, next, next, sweeps.drop_first().push(pairs), n));
    }
}

/// Resumability of the generation driver: absorbing the batches of a
/// whole generation in one uninterrupted run gives exactly the state
/// reached by absorbing a prefix of them, persisting and restoring the
/// state unchanged, and then absorbing the rest.  Since each batch
/// depends only on the seeds, which stand fixed for the whole
/// generation, no completed subset is reprocessed and no completed
/// subset's contribution is lost.
pub proof fn lemma_absorb_split(
    interesting: Seq<crate::polynomial::PolyView>,
    first: Seq<Seq<crate::polynomial::PolyView>>,
    rest: Seq<Seq<crate::polynomial::PolyView>>,
)
    ensures
        spec_absorb(interesting, first + rest) == spec_absorb(
            spec_absorb(interesting, first),
            rest,
        ),
    decreases first.len(),
{
    if first.len() == 0 {
        assert(first + rest =~= rest);
    } else {
        assert((first + rest)[0] == first[0]);
        assert((first + rest).drop_first() =~= first.drop_first() + rest);
        lemma_absorb_split(interesting + first[0], first.drop_first(), rest);
    }
}

/// Absorbing one more batch appends it to the accumulated set.
proof fn lemma_absorb_push(
    interesting: Seq<crate::polynomial::PolyView>,
    batches: Seq<Seq<crate::polynomial::PolyView>>,
    batch: Seq<crate::polynomial::PolyView>,
)
    ensures
        spec_absorb(interesting, batches.push(batch)) == spec_absorb(interesting, batches) + batch,
{
    assert(batches.push(batch) =~= batches + seq![batch]);
    lemma_absorb_split(interesting, batches, seq![batch]);
    assert(seq![batch].drop_first() =~= Seq::<Seq<crate::polynomial::PolyView>>::empty());
    let acc = spec_absorb(interesting, batches);
    assert(seq![batch][0] == batch);
    assert(spec_absorb(acc + batch, Seq::<Seq<crate::polynomial::PolyView>>::empty()) == acc
        + batch);
    assert(spec_absorb(acc, seq![batch]) == spec_absorb(
        acc + seq![batch][0],
        seq![batch].drop_first(),
    ));
    assert(spec_absorb(acc, seq![batch]) == acc + batch);
}

/// Processes one coefficient subset: minimizes every seed against it,
/// absorbs the collapsed batch into the accumulated interesting set,
/// and marks the subset as done.  This is exactly one absorption step
/// of the generation driver; the caller persists the state afterwards.
#[verifier::rlimit(100)]
pub fn process_combination(
    state: &mut crate::current_state::CurrentState,
    combination: &Vec<usize>,
    combination_length: usize,
    polynomial_verifier: &crate::polynomial_verifier::PolynomialVerifier,
)
    requires
        old(state).wf(),
        polynomial_verifier.wf(),
        combination@.len() >= 1,
        (combination_length as nat) < old(state).combinations_left@.len(),
        forall|i: int|
            0 <= i < old(state).starting_mutated_polynomials@.len()
                ==> #[trigger] old(state).starting_mutated_polynomials@[i]@.size
                == polynomial_verifier.spec_size(),
        forall|i: int|
            0 <= i < old(state).starting_mutated_polynomials@.len() ==> spec_is_combination(
                combination@,
                #[trigger] old(state).starting_mutated_polynomials@[i]@.coeffs.len(),
                combination@.len() as nat,
            ),
    ensures
        final(state).wf(),
        exists|batch: Seq<crate::polynomial::PolyView>|
            {
                &&& crate::collapse::spec_poly_views(final(state).interesting_polynomials@)
                    == crate::collapse::spec_poly_views(old(state).interesting_polynomials@) + (
                #[trigger] crate::collapse::spec_collapse(batch))
                &&& forall|i: int|
                    0 <= i < batch.len() ==> {
                        &&& polynomial_verifier.spec_test(#[trigger] batch[i])
                        &&& !spec_all_at_least(batch[i].coeffs, BOUNDARY_TOLERANCE as int)
                        &&& batch[i].size == polynomial_verifier.spec_size()
                        &&& exists|j: int|
                            0 <= j < old(state).starting_mutated_polynomials@.len()
                                && batch[i].coeffs.len() == (
                            #[trigger] old(state).starting_mutated_polynomials@[j]@).coeffs.len()
                    }
                &&& forall|i: int| #![trigger batch[i]]
                    0 <= i < batch.len() ==> spec_outcome_of_seeds(
                        polynomial_verifier,
                        crate::collapse::spec_poly_views(
                            old(state).starting_mutated_polynomials@,
                        ),
                        batch[i],
                        combination@,
                    )
            },
        (exists|i: int|
            0 <= i < old(state).starting_mutated_polynomials@.len()
                && polynomial_verifier.spec_test(
                (#[trigger] old(state).starting_mutated_polynomials@[i])@,
            ) && !spec_all_at_least(
                old(state).starting_mutated_polynomials@[i]@.coeffs,
                BOUNDARY_TOLERANCE as int,
            )) ==> final(state).interesting_polynomials@.len()
            > old(state).interesting_polynomials@.len(),
        crate::collapse::spec_poly_views(final(state).starting_mutated_polynomials@)
            == crate::collapse::spec_poly_views(old(state).starting_mutated_polynomials@),
        final(state).current_generation == old(state).current_generation,
        crate::current_state::spec_combo_views(
            final(state).combinations_left@[combination_length as int]@,
        ) == crate::current_state::spec_without(
            crate::current_state::spec_combo_views(
                old(state).combinations_left@[combination_length as int]@,
            ),
            combination@,
        ),
        final(state).combinations_left@.len() == old(state).combinations_left@.len(),
{
    let ghost state0 = *state;
    let seeds = crate::current_state::clone_polynomials(&state.starting_mutated_polynomials);
    let ghost seedsv = seeds@;
    proof {
        assert(crate::collapse::spec_poly_views(seeds@).len() == seeds@.len());
        assert(crate::collapse::spec_poly_views(state.starting_mutated_polynomials@).len()
            == state.starting_mutated_polynomials@.len());
        assert(seeds@.len() == state.starting_mutated_polynomials@.len());
        assert forall|i: int|
            0 <= i < seeds@.len() implies #[trigger] seeds@[i].wf() && seeds@[i]@.size
            == polynomial_verifier.spec_size() && spec_is_combination(
            combination@,
            seeds@[i]@.coeffs.len(),
            combination@.len() as nat,
        ) by {
            assert(crate::collapse::spec_poly_views(seeds@)[i] == seeds@[i]@);
            assert(crate::collapse::spec_poly_views(state.starting_mutated_polynomials@)[i]
                == state.starting_mutated_polynomials@[i]@);
            assert(seeds@[i]@ == state.starting_mutated_polynomials@[i]@);
            assert(state.starting_mutated_polynomials@[i].wf());
        }
        assert forall|i: int|
            0 <= i < seeds@.len() implies (#[trigger] seeds@[i]@).size
            == polynomial_verifier.spec_size() && spec_is_combination(
            combination@,
            seeds@[i]@.coeffs.len(),
            combination@.len() as nat,
        ) by {
            assert(seeds@[i].wf());
        }
    }
    proof {
        if exists|i: int|
            0 <= i < state0.starting_mutated_polynomials@.len() && polynomial_verifier.spec_test(
                (#[trigger] state0.starting_mutated_polynomials@[i])@,
            ) && !spec_all_at_least(
                state0.starting_mutated_polynomials@[i]@.coeffs,
                BOUNDARY_TOLERANCE as int,
            ) {
            let i = choose|i: int|
                0 <= i < state0.starting_mutated_polynomials@.len()
                    && polynomial_verifier.spec_test(
                    (#[trigger] state0.starting_mutated_polynomials@[i])@,
                ) && !spec_all_at_least(
                    state0.starting_mutated_polynomials@[i]@.coeffs,
                    BOUNDARY_TOLERANCE as int,
                );
            assert(crate::collapse::spec_poly_views(seedsv)[i] == seedsv[i]@);
            assert(crate::collapse::spec_poly_views(state0.starting_mutated_polynomials@)[i]
                == state0.starting_mutated_polynomials@[i]@);
            assert(seedsv[i]@ == state0.starting_mutated_polynomials@[i]@);
            assert(polynomial_verifier.spec_test(seedsv[i]@) && !spec_all_at_least(
                seedsv[i]@.coeffs,
                BOUNDARY_TOLERANCE as int,
            ));
        }
    }
    let mut results = mutate_coefficients(seeds, combination, polynomial_verifier);
    let ghost results_v = results@;
    let ghost interesting_before = state.interesting_polynomials@;
    state.interesting_polynomials.append(&mut results);
    proof {
        assert(state.interesting_polynomials@ == interesting_before + results_v);
        assert forall|i: int|
            0 <= i < state.interesting_polynomials@.len()
                implies #[trigger] state.interesting_polynomials@[i].wf() by {
            if i < interesting_before.len() {
                assert(state.interesting_polynomials@[i] == interesting_before[i]);
            } else {
                assert(state.interesting_polynomials@[i] == results_v[i
                    - interesting_before.len()]);
                assert(results_v[i - interesting_before.len()].wf());
            }
        }
        assert(crate::collapse::spec_poly_views(interesting_before + results_v)
            =~= crate::collapse::spec_poly_views(interesting_before)
            + crate::collapse::spec_poly_views(results_v));
        let raw = choose|raw: Seq<crate::polynomial::PolyView>|
            {
                &&& crate::collapse::spec_poly_views(results_v)
                    == #[trigger] crate::collapse::spec_collapse(raw)
                &&& (forall|i: int| #![trigger raw[i]]
                    0 <= i < raw.len() ==> spec_batch_member(
                        polynomial_verifier,
                        seedsv,
                        raw[i],
                        combination@,
                    ))
            };
        assert forall|i: int| #![trigger raw[i]]
            0 <= i < raw.len() implies {
            &&& polynomial_verifier.spec_test(raw[i])
            &&& !spec_all_at_least(raw[i].coeffs, BOUNDARY_TOLERANCE as int)
            &&& raw[i].size == polynomial_verifier.spec_size()
            &&& (exists|j: int|
                0 <= j < state0.starting_mutated_polynomials@.len() && raw[i].coeffs.len() == (
                #[trigger] state0.starting_mutated_polynomials@[j]@).coeffs.len())
            &&& spec_outcome_of_seeds(
                polynomial_verifier,
                crate::collapse::spec_poly_views(state0.starting_mutated_polynomials@),
                raw[i],
                combination@,
            )
        } by {
            let j = choose|j: int|
                0 <= j < seedsv.len() && #[trigger] spec_minimizer_outcome(
                    polynomial_verifier,
                    seedsv[j]@,
                    raw[i],
                    combination@,
                );
            assert(crate::collapse::spec_poly_views(seedsv)[j] == seedsv[j]@);
            assert(crate::collapse::spec_poly_views(state0.starting_mutated_polynomials@)[j]
                == state0.starting_mutated_polynomials@[j]@);
            assert(seedsv[j]@ == state0.starting_mutated_polynomials@[j]@);
            assert(seedsv[j]@.size == polynomial_verifier.spec_size());
            assert(spec_minimizer_outcome(
                polynomial_verifier,
                crate::collapse::spec_poly_views(state0.starting_mutated_polynomials@)[j],
                raw[i],
                combination@,
            ));
        }
    }
    state.remove_combination(combination, combination_length);
}

/// The range a random perturbation keeps a coefficient in: positive
/// coefficients stay positive and below one unit (or below their own
/// value plus one when already above a unit), zeros rise to a
/// non-negative value below one unit, and negative coefficients stay
/// negative and above minus one unit (or above their own value minus
/// one when already below minus a unit).
pub open spec fn spec_mutated_range(base: int, new: int) -> bool {
    if base > 0 {
        0 < new < (if base >= UNIT {
            base + 1
        } else {
            UNIT as int
        })
    } else if base == 0 {
        0 <= new < UNIT
    } else {
        (if -base >= UNIT {
            base - 1
        } else {
            -(UNIT as int)
        }) < new < 0
    }
}

/// `new` is `base` perturbed at exactly the indices of `combo`, each
/// within its sign-preserving mutation range.
pub open spec fn spec_mutation_of(base: Seq<int>, new: Seq<int>, combo: Seq<usize>) -> bool {
    &&& new.len() == base.len()
    &&& forall|m: int|
        0 <= m < base.len() && !spec_in_combo(combo, m) ==> #[trigger] new[m] == base[m]
    &&& forall|m: int|
        0 <= m < base.len() && spec_in_combo(combo, m) ==> spec_mutated_range(
            base[m],
            #[trigger] new[m],
        )
}

/// `new` arises from `base` by perturbing one non-empty
/// coefficient-index subset.
pub open spec fn spec_is_mutation(base: Seq<int>, new: Seq<int>, n: nat) -> bool {
    exists|combo: Seq<usize>|
        {
            &&& spec_is_combination(combo, n, combo.len())
            &&& 1 <= combo.len()
            &&& #[trigger] spec_mutation_of(base, new, combo)
        }
}

/// Randomly perturbs exactly the coefficients of the chosen subset,
/// each within its sign-preserving mutation range.
fn mutate_one(base_polynomial: &Polynomial, combination: &Vec<usize>) -> (r: Polynomial)
    requires
        base_polynomial.wf(),
        spec_is_combination(
            combination@,
            base_polynomial@.coeffs.len(),
            combination@.len() as nat,
        ),
    ensures
        r.wf(),
        r@.size == base_polynomial@.size,
        r@.coeffs.len() == base_polynomial@.coeffs.len(),
        forall|m: int|
            0 <= m < base_polynomial@.coeffs.len() && !spec_in_combo(combination@, m)
                ==> #[trigger] r@.coeffs[m] == base_polynomial@.coeffs[m],
        forall|m: int|
            0 <= m < base_polynomial@.coeffs.len() && spec_in_combo(combination@, m)
                ==> spec_mutated_range(base_polynomial@.coeffs[m], #[trigger] r@.coeffs[m]),
{
    let ghost base = base_polynomial@.coeffs;
    let mut polynomial = base_polynomial.clone();
    proof {
        assert(polynomial@.coeffs =~= base_polynomial@.coeffs);
    }
    let k = combination.len();
    let mut t: usize = 0;
    while t < k
        invariant
            t <= k,
            k as nat == combination@.len(),
            polynomial.wf(),
            polynomial@.size == base_polynomial@.size,
            polynomial@.coeffs.len() == base.len(),
            base == base_polynomial@.coeffs,
            base_polynomial.wf(),
            spec_is_combination(combination@, base.len(), combination@.len() as nat),
            forall|m: int|
                0 <= m < base.len() ==> (if exists|u: int| 0 <= u < t && combination@[u] == m {
                    spec_mutated_range(base[m], #[trigger] polynomial@.coeffs[m])
                } else {
                    polynomial@.coeffs[m] == base[m]
                }),
        decreases k - t,
    {
        let j = combination[t];
        proof {
            assert((combination@[t as int] as nat) < base.len());
            if exists|u: int| 0 <= u < t && combination@[u] == j {
                let u = choose|u: int| 0 <= u < t && combination@[u] == j;
                lemma_combo_increasing(combination@, u, t as int);
                assert(false);
            }
            assert(polynomial@.coeffs[j as int] == base[j as int]);
        }
        let c = polynomial.coefficient(j);
        let value: i64 = if c > 0 {
            let num_up: i64 = if c >= UNIT {
                0
            } else {
                crate::rng::rand_range_i64(0, UNIT - c)
            };
            let num_down = crate::rng::rand_range_i64(0, c);
            c - num_down + num_up
        } else if c == 0 {
            crate::rng::rand_range_i64(0, UNIT)
        } else {
            let magnitude = -c;
            let num_down: i64 = if magnitude >= UNIT {
                0
            } else {
                crate::rng::rand_range_i64(0, UNIT - magnitude)
            };
            let num_up = crate::rng::rand_range_i64(0, magnitude);
            c - num_down + num_up
        };
        proof {
            assert(spec_mutated_range(base[j as int], value as int));
            assert(-COEFF_LIMIT <= value <= COEFF_LIMIT);
        }
        let ghost before = polynomial@.coeffs;
        polynomial.set_coefficient(j, value);
        proof {
            assert forall|m: int|
                0 <= m < base.len() implies (if exists|u: int|
                0 <= u < t + 1 && combination@[u] == m {
                spec_mutated_range(base[m], #[trigger] polynomial@.coeffs[m])
            } else {
                polynomial@.coeffs[m] == base[m]
            }) by {
                if m == j as int {
                    assert(combination@[t as int] == m);
                    assert(exists|u: int| 0 <= u < t + 1 && combination@[u] == m);
                    assert(polynomial@.coeffs[m] == value as int);
                } else {
                    assert(polynomial@.coeffs[m] == before[m]);
                    if exists|u: int| 0 <= u < t + 1 && combination@[u] == m {
                        let u = choose|u: int| 0 <= u < t + 1 && combination@[u] == m;
                        assert(u < t);
                        assert(exists|u2: int| 0 <= u2 < t && combination@[u2] == m);
                    } else {
                        assert(!exists|u: int| 0 <= u < t && combination@[u] == m);
                    }
                }
            }
        }
        t += 1;
    }
    proof {
        assert forall|m: int|
            0 <= m < base.len() && spec_in_combo(combination@, m) implies spec_mutated_range(
            base[m],
            #[trigger] polynomial@.coeffs[m],
        ) by {
            assert(exists|u: int| 0 <= u < k && combination@[u] == m);
        }
    }
    polynomial
}

/// Builds the seed pool for one generation: for every non-empty
/// coefficient-index subset, `mutated_polynomials_to_evaluate` random
/// perturbations of the base polynomial along that subset; when the
/// pool outgrows that count, a random sample of exactly that many is
/// kept.
#[verifier::rlimit(50)]
pub fn generate_mutated_polynomials(
    base_polynomial: &Polynomial,
    mutated_polynomials_to_evaluate: usize,
) -> (r: Vec<Polynomial>)
    requires
        base_polynomial.wf(),
    ensures
        forall|i: int| #![trigger r@[i]]
            0 <= i < r@.len() ==> {
                &&& r@[i].wf()
                &&& r@[i]@.size == base_polynomial@.size
                &&& r@[i]@.coeffs.len() == base_polynomial@.coeffs.len()
                &&& spec_is_mutation(
                    base_polynomial@.coeffs,
                    r@[i]@.coeffs,
                    base_polynomial@.coeffs.len(),
                )
            },
        base_polynomial@.coeffs.len() >= 2 && mutated_polynomials_to_evaluate >= 1 ==> r@.len()
            == mutated_polynomials_to_evaluate as nat,
{
    let n = base_polynomial.len();
    let mut mutated_polynomials: Vec<Polynomial> = Vec::new();
    let mut i: usize = 1;
    while i < n
        invariant
            1 <= i <= n || (n == 0 && i == 1) || (n == 1 && i == 1),
            n as nat == base_polynomial@.coeffs.len(),
            base_polynomial.wf(),
            n >= 2 && i >= 2 ==> mutated_polynomials@.len() >= 2 * (
            mutated_polynomials_to_evaluate as nat),
            forall|u: int| #![trigger mutated_polynomials@[u]]
                0 <= u < mutated_polynomials@.len() ==> {
                    &&& mutated_polynomials@[u].wf()
                    &&& mutated_polynomials@[u]@.size == base_polynomial@.size
                    &&& mutated_polynomials@[u]@.coeffs.len() == base_polynomial@.coeffs.len()
                    &&& spec_is_mutation(
                        base_polynomial@.coeffs,
                        mutated_polynomials@[u]@.coeffs,
                        base_polynomial@.coeffs.len(),
                    )
                },
        decreases n - i,
    {
        let combos = crate::combos::combinations_of(n, i);
        let m = combos.len();
        proof {
            if i == 1 && n >= 2 {
                let s0 = seq![0usize];
                let s1 = seq![1usize];
                assert(spec_is_combination(s0, n as nat, 1nat));
                assert(spec_is_combination(s1, n as nat, 1nat));
                let j0 = choose|j: int| 0 <= j < combos@.len() && #[trigger] combos@[j]@ == s0;
                let j1 = choose|j: int| 0 <= j < combos@.len() && #[trigger] combos@[j]@ == s1;
                assert(s0[0] != s1[0]);
                assert(j0 != j1);
                assert(m >= 2);
            }
        }
        let ghost glen0 = mutated_polynomials@.len();
        let mut c: usize = 0;
        while c < m
            invariant
                c <= m,
                1 <= i < n,
                m as nat == combos@.len(),
                n as nat == base_polynomial@.coeffs.len(),
                base_polynomial.wf(),
                mutated_polynomials@.len() == glen0 + (c as int) * (
                mutated_polynomials_to_evaluate as int),
                i == 1 && n >= 2 ==> m >= 2,
                n >= 2 && i >= 2 ==> glen0 >= 2 * (mutated_polynomials_to_evaluate as nat),
                forall|b: int|
                    0 <= b < combos@.len() ==> spec_is_combination(
                        #[trigger] combos@[b]@,
                        n as nat,
                        i as nat,
                    ),
                forall|u: int| #![trigger mutated_polynomials@[u]]
                    0 <= u < mutated_polynomials@.len() ==> {
                        &&& mutated_polynomials@[u].wf()
                        &&& mutated_polynomials@[u]@.size == base_polynomial@.size
                        &&& mutated_polynomials@[u]@.coeffs.len() == base_polynomial@.coeffs.len()
                        &&& spec_is_mutation(
                            base_polynomial@.coeffs,
                            mutated_polynomials@[u]@.coeffs,
                            base_polynomial@.coeffs.len(),
                        )
                    },
            decreases m - c,
        {
            let mut rep: usize = 0;
            while rep < mutated_polynomials_to_evaluate
                invariant
                    rep <= mutated_polynomials_to_evaluate,
                    c < m,
                    1 <= i < n,
                    m as nat == combos@.len(),
                    n as nat == base_polynomial@.coeffs.len(),
                    base_polynomial.wf(),
                    mutated_polynomials@.len() == glen0 + (c as int) * (
                    mutated_polynomials_to_evaluate as int) + rep,
                    forall|b: int|
                        0 <= b < combos@.len() ==> spec_is_combination(
                            #[trigger] combos@[b]@,
                            n as nat,
                            i as nat,
                        ),
                    forall|u: int| #![trigger mutated_polynomials@[u]]
                        0 <= u < mutated_polynomials@.len() ==> {
                            &&& mutated_polynomials@[u].wf()
                            &&& mutated_polynomials@[u]@.size == base_polynomial@.size
                            &&& mutated_polynomials@[u]@.coeffs.len()
                                == base_polynomial@.coeffs.len()
                            &&& spec_is_mutation(
                                base_polynomial@.coeffs,
                                mutated_polynomials@[u]@.coeffs,
                                base_polynomial@.coeffs.len(),
                            )
                        },
                decreases mutated_polynomials_to_evaluate - rep,
            {
                proof {
                    assert(spec_is_combination(combos@[c as int]@, n as nat, i as nat));
                }
                let mutated = mutate_one(base_polynomial, &combos[c]);
                let ghost mv = mutated@;
                mutated_polynomials.push(mutated);
                proof {
                    assert(spec_mutation_of(base_polynomial@.coeffs, mv.coeffs, combos@[c as int]@));
                    assert(spec_is_mutation(base_polynomial@.coeffs, mv.coeffs, n as nat));
                }
                rep += 1;
            }
            proof {
                assert(((c + 1) as int) * (mutated_polynomials_to_evaluate as int) == (c as int) * (
                mutated_polynomials_to_evaluate as int) + (mutated_polynomials_to_evaluate as int))
                    by (nonlinear_arith);
            }
            c += 1;
        }
        proof {
            if n >= 2 && i == 1 {
                assert((m as int) * (mutated_polynomials_to_evaluate as int) >= 2 * (
                mutated_polynomials_to_evaluate as int)) by (nonlinear_arith)
                    requires
                        m as int >= 2,
                        mutated_polynomials_to_evaluate as int >= 0,
                ;
            }
            if n >= 2 && i >= 2 {
                assert((m as int) * (mutated_polynomials_to_evaluate as int) >= 0)
                    by (nonlinear_arith)
                    requires
                        m as int >= 0,
                        mutated_polynomials_to_evaluate as int >= 0,
                ;
            }
        }
        i += 1;
    }
    proof {
        if n >= 2 && mutated_polynomials_to_evaluate >= 1 {
            assert(mutated_polynomials@.len() >= 2 * (mutated_polynomials_to_evaluate as nat));
        }
    }
    if mutated_polynomials.len() > mutated_polynomials_to_evaluate {
        let sampled = crate::rng::sample_polynomials(
            &mutated_polynomials,
            mutated_polynomials_to_evaluate,
        );
        proof {
            assert forall|u: int| #![trigger sampled@[u]]
                0 <= u < sampled@.len() implies {
                &&& sampled@[u].wf()
                &&& sampled@[u]@.size == base_polynomial@.size
                &&& sampled@[u]@.coeffs.len() == base_polynomial@.coeffs.len()
                &&& spec_is_mutation(
                    base_polynomial@.coeffs,
                    sampled@[u]@.coeffs,
                    base_polynomial@.coeffs.len(),
                )
            } by {
                let j = choose|j: int|
                    0 <= j < mutated_polynomials@.len() && sampled@[u]@
                        == #[trigger] mutated_polynomials@[j]@;
                assert(mutated_polynomials@[j].wf());
                assert(spec_is_mutation(
                    base_polynomial@.coeffs,
                    mutated_polynomials@[j]@.coeffs,
                    base_polynomial@.coeffs.len(),
                ));
            }
        }
        sampled
    } else {
        proof {
            if n >= 2 && mutated_polynomials_to_evaluate >= 1 {
                assert(mutated_polynomials@.len() <= mutated_polynomials_to_evaluate as nat);
                assert(false);
            }
        }
        mutated_polynomials
    }
}

/// One full search run from a starting polynomial: builds the probe
/// corpus and the seed pool once, then runs `generations` sweeps.
/// Each sweep enumerates every non-empty coefficient-index subset
/// exactly once (sizes in increasing order), minimizes every current
/// seed against each subset, absorbs the collapsed batches into the
/// accumulated interesting set, and at sweep end collapses the
/// accumulation and installs it as the next sweep's seeds.  The
/// contract names this whole structure: under the built corpus there
/// is a chain of full sweeps, one per generation, whose stepwise
/// absorption, collapse and reseeding produces exactly the returned
/// set.
#[verifier::rlimit(100)]
pub fn mutate_polynomial(
    base_polynomial: Polynomial,
    matrices_to_fuzz: usize,
    mutated_polynomials_to_evaluate: usize,
    generations: usize,
) -> (r: Vec<Polynomial>)
    requires
        base_polynomial.wf(),
        generations < usize::MAX,
    ensures
        forall|i: int| 0 <= i < r@.len() ==> #[trigger] r@[i].wf(),
        forall|i: int| #![trigger r@[i]]
            0 <= i < r@.len() ==> {
                &&& r@[i]@.size == base_polynomial@.size
                &&& r@[i]@.coeffs.len() == base_polynomial@.coeffs.len()
                &&& !spec_all_at_least(r@[i]@.coeffs, BOUNDARY_TOLERANCE as int)
            },
        exists|acc: Seq<crate::polynomial::PolyView>|
            crate::collapse::spec_poly_views(r@) == #[trigger] crate::collapse::spec_collapse(acc),
        exists|
            v: crate::polynomial_verifier::PolynomialVerifier,
            seeds: Seq<crate::polynomial::PolyView>,
            sweeps: Seq<Seq<(Seq<usize>, Seq<crate::polynomial::PolyView>)>>,
        |
            {
                &&& v.wf()
                &&& v.spec_size() == base_polynomial@.size
                &&& (base_polynomial@.coeffs.len() >= 2 && mutated_polynomials_to_evaluate >= 1
                    ==> seeds.len() == mutated_polynomials_to_evaluate as nat)
                &&& (forall|i: int| #![trigger seeds[i]]
                    0 <= i < seeds.len() ==> {
                        &&& seeds[i].size == base_polynomial@.size
                        &&& seeds[i].coeffs.len() == base_polynomial@.coeffs.len()
                        &&& spec_is_mutation(
                            base_polynomial@.coeffs,
                            seeds[i].coeffs,
                            base_polynomial@.coeffs.len(),
                        )
                    })
                &&& sweeps.len() == generations as nat
                &&& #[trigger] spec_generation_chain(
                    &v,
                    seeds,
                    Seq::empty(),
                    sweeps,
                    base_polynomial@.coeffs.len(),
                )
                &&& crate::collapse::spec_poly_views(r@) == spec_chain_state(
                    seeds,
                    Seq::empty(),
                    sweeps,
                ).1
            },
{
    let n = base_polynomial.len();
    let mut current_state = crate::current_state::CurrentState::new(n, 0);
    current_state.starting_mutated_polynomials = generate_mutated_polynomials(
        &base_polynomial,
        mutated_polynomials_to_evaluate,
    );
    let polynomial_verifier = crate::polynomial_verifier::PolynomialVerifier::new(
        matrices_to_fuzz,
        base_polynomial.get_size(),
    );
    let ghost vsize = polynomial_verifier.spec_size();
    let ghost seeds0 = crate::collapse::spec_poly_views(
        current_state.starting_mutated_polynomials@,
    );
    let ghost mut sweeps: Seq<Seq<(Seq<usize>, Seq<crate::polynomial::PolyView>)>> = Seq::empty();
    proof {
        assert forall|i: int| #![trigger seeds0[i]]
            0 <= i < seeds0.len() implies {
            &&& seeds0[i].size == base_polynomial@.size
            &&& seeds0[i].coeffs.len() == base_polynomial@.coeffs.len()
            &&& spec_is_mutation(
                base_polynomial@.coeffs,
                seeds0[i].coeffs,
                base_polynomial@.coeffs.len(),
            )
        } by {
            assert(seeds0[i] == current_state.starting_mutated_polynomials@[i]@);
            assert(current_state.starting_mutated_polynomials@[i].wf());
        }
        assert(spec_chain_state(seeds0, Seq::empty(), sweeps) == (
            seeds0,
            Seq::<crate::polynomial::PolyView>::empty(),
        ));
    }
    let mut generation: usize = 0;
    while generation < generations
        invariant
            generation <= generations,
            generations < usize::MAX,
            n as nat == base_polynomial@.coeffs.len(),
            base_polynomial.wf(),
            polynomial_verifier.wf(),
            vsize == polynomial_verifier.spec_size(),
            current_state.wf(),
            current_state.current_generation == generation,
            sweeps.len() == generation as nat,
            spec_generation_chain(&polynomial_verifier, seeds0, Seq::empty(), sweeps, n as nat),
            crate::collapse::spec_poly_views(current_state.starting_mutated_polynomials@)
                == spec_chain_state(seeds0, Seq::empty(), sweeps).0,
            crate::collapse::spec_poly_views(current_state.interesting_polynomials@)
                == spec_chain_state(seeds0, Seq::empty(), sweeps).1,
            forall|i: int| #![trigger current_state.starting_mutated_polynomials@[i]]
                0 <= i < current_state.starting_mutated_polynomials@.len() ==> {
                    &&& current_state.starting_mutated_polynomials@[i]@.size == vsize
                    &&& current_state.starting_mutated_polynomials@[i]@.coeffs.len() == n as nat
                },
            forall|i: int| #![trigger current_state.interesting_polynomials@[i]]
                0 <= i < current_state.interesting_polynomials@.len() ==> {
                    &&& current_state.interesting_polynomials@[i]@.size == vsize
                    &&& current_state.interesting_polynomials@[i]@.coeffs.len() == n as nat
                    &&& !spec_all_at_least(
                        current_state.interesting_polynomials@[i]@.coeffs,
                        BOUNDARY_TOLERANCE as int,
                    )
                },
            generation >= 1 ==> exists|acc: Seq<crate::polynomial::PolyView>|
                crate::collapse::spec_poly_views(current_state.interesting_polynomials@) == (
                #[trigger] crate::collapse::spec_collapse(acc)),
            generation == 0 ==> current_state.interesting_polynomials@.len() == 0,
        decreases generations - generation,
    {
        // A fresh enumeration of every coefficient-index subset for
        // this sweep.
        let fresh = crate::current_state::CurrentState::new(n, generation);
        let crate::current_state::CurrentState { combinations_left: fresh_combos, .. } = fresh;
        current_state.combinations_left = fresh_combos;
        proof {
            lemma_remaining_full_sweep(current_state.combinations_left@, n as nat);
        }
        let ghost pre_seeds = crate::collapse::spec_poly_views(
            current_state.starting_mutated_polynomials@,
        );
        let ghost pre_int = current_state.interesting_polynomials@;
        let ghost pre_groups = current_state.combinations_left@;
        sweep_remaining(&mut current_state, &polynomial_verifier, Ghost(n as nat));
        let ghost pairs = choose|pairs: Seq<(Seq<usize>, Seq<crate::polynomial::PolyView>)>|
            {
                &&& spec_pair_combos(pairs) == spec_remaining_subsets(pre_groups)
                &&& #[trigger] spec_swept(&polynomial_verifier, pre_seeds, pairs)
                &&& crate::collapse::spec_poly_views(current_state.interesting_polynomials@)
                    == spec_absorb(
                    crate::collapse::spec_poly_views(pre_int),
                    spec_pair_batches(pairs),
                )
            };
        proof {
            assert(spec_full_sweep(spec_pair_combos(pairs), n as nat));
            assert forall|b: int|
                0 <= b < spec_pair_batches(pairs).len() implies spec_views_tolerant(
                #[trigger] spec_pair_batches(pairs)[b],
            ) by {
                assert(spec_pair_batches(pairs)[b] == pairs[b].1);
                assert(spec_subset_batch(
                    &polynomial_verifier,
                    pre_seeds,
                    pairs[b].0,
                    pairs[b].1,
                ));
                assert forall|x: int| #![trigger pairs[b].1[x]]
                    0 <= x < pairs[b].1.len() implies !spec_all_at_least(
                    pairs[b].1[x].coeffs,
                    BOUNDARY_TOLERANCE as int,
                ) by {
                    assert(spec_outcome_of_seeds(
                        &polynomial_verifier,
                        pre_seeds,
                        pairs[b].1[x],
                        pairs[b].0,
                    ));
                }
            }
            assert(spec_views_tolerant(crate::collapse::spec_poly_views(pre_int))) by {
                assert forall|x: int|
                    #![trigger crate::collapse::spec_poly_views(pre_int)[x]]
                    0 <= x < crate::collapse::spec_poly_views(pre_int).len()
                        implies !spec_all_at_least(
                    crate::collapse::spec_poly_views(pre_int)[x].coeffs,
                    BOUNDARY_TOLERANCE as int,
                ) by {
                    assert(crate::collapse::spec_poly_views(pre_int)[x] == pre_int[x]@);
                }
            }
            lemma_absorb_tolerant(
                crate::collapse::spec_poly_views(pre_int),
                spec_pair_batches(pairs),
            );
        }
        let ghost pre_fin = current_state.interesting_polynomials@;
        current_state.finish_generation();
        proof {
            lemma_chain_state_snoc(seeds0, Seq::empty(), sweeps, pairs);
            lemma_chain_wf_snoc(
                &polynomial_verifier,
                seeds0,
                Seq::empty(),
                sweeps,
                pairs,
                n as nat,
            );
            sweeps = sweeps.push(pairs);
            lemma_view_facts(pre_fin, vsize, n as nat);
            lemma_collapse_keeps_facts(
                crate::collapse::spec_poly_views(pre_fin),
                vsize,
                n as nat,
            );
            lemma_poly_facts(current_state.interesting_polynomials@, vsize, n as nat);
            lemma_poly_facts(current_state.starting_mutated_polynomials@, vsize, n as nat);
            let prev = crate::collapse::spec_poly_views(pre_fin);
            let newv = crate::collapse::spec_poly_views(current_state.interesting_polynomials@);
            assert forall|tt: int|
                #![trigger current_state.interesting_polynomials@[tt]]
                0 <= tt < current_state.interesting_polynomials@.len() implies !spec_all_at_least(
                current_state.interesting_polynomials@[tt]@.coeffs,
                BOUNDARY_TOLERANCE as int,
            ) by {
                assert(newv[tt] == current_state.interesting_polynomials@[tt]@);
                crate::collapse::lemma_collapse_members(prev, tt);
                let j = choose|j: int|
                    0 <= j < prev.len() && crate::collapse::spec_collapse(prev)[tt]
                        == #[trigger] prev[j];
            }
        }
        generation += 1;
    }
    proof {
        if generations == 0 {
            let acc = Seq::<crate::polynomial::PolyView>::empty();
            assert(crate::collapse::spec_collapse(acc) =~= crate::collapse::spec_poly_views(
                current_state.interesting_polynomials@,
            ));
        }
        assert(vsize == base_polynomial@.size);
        assert(spec_generation_chain(
            &polynomial_verifier,
            seeds0,
            Seq::empty(),
            sweeps,
            base_polynomial@.coeffs.len(),
        ));
    }
    current_state.interesting_polynomials
}

/// Shape facts about polynomials carry over from their views.
proof fn lemma_poly_facts(polys: Seq<Polynomial>, size: nat, len: nat)
    requires
        forall|i: int|
            0 <= i < crate::collapse::spec_poly_views(polys).len() ==> (
            #[trigger] crate::collapse::spec_poly_views(polys)[i]).size == size
                && crate::collapse::spec_poly_views(polys)[i].coeffs.len() == len,
    ensures
        forall|i: int| #![trigger polys[i]]
            0 <= i < polys.len() ==> polys[i]@.size == size && polys[i]@.coeffs.len() == len,
{
    assert forall|i: int| #![trigger polys[i]]
        0 <= i < polys.len() implies polys[i]@.size == size
        && polys[i]@.coeffs.len() == len by {
        assert(crate::collapse::spec_poly_views(polys)[i] == polys[i]@);
    }
}

/// Shape facts about views carry over from their polynomials.
proof fn lemma_view_facts(polys: Seq<Polynomial>, size: nat, len: nat)
    requires
        forall|i: int|
            0 <= i < polys.len() ==> (#[trigger] polys[i]@).size == size && polys[i]@.coeffs.len()
                == len,
    ensures
        forall|i: int|
            0 <= i < crate::collapse::spec_poly_views(polys).len() ==> (
            #[trigger] crate::collapse::spec_poly_views(polys)[i]).size == size
                && crate::collapse::spec_poly_views(polys)[i].coeffs.len() == len,
{
    assert forall|i: int|
        0 <= i < crate::collapse::spec_poly_views(polys).len() implies (
    #[trigger] crate::collapse::spec_poly_views(polys)[i]).size == size
        && crate::collapse::spec_poly_views(polys)[i].coeffs.len() == len by {
        assert(crate::collapse::spec_poly_views(polys)[i] == polys[i]@);
    }
}

/// Collapsing keeps the shape of its candidates: every survivor is one
/// of them.
proof fn lemma_collapse_keeps_facts(vs: Seq<crate::polynomial::PolyView>, size: nat, len: nat)
    requires
        forall|i: int|
            0 <= i < vs.len() ==> (#[trigger] vs[i]).size == size && vs[i].coeffs.len() == len,
    ensures
        forall|a: int|
            0 <= a < crate::collapse::spec_collapse(vs).len() ==> (
            #[trigger] crate::collapse::spec_collapse(vs)[a]).size == size
                && crate::collapse::spec_collapse(vs)[a].coeffs.len() == len,
{
    assert forall|a: int|
        0 <= a < crate::collapse::spec_collapse(vs).len() implies (
    #[trigger] crate::collapse::spec_collapse(vs)[a]).size == size
        && crate::collapse::spec_collapse(vs)[a].coeffs.len() == len by {
        crate::collapse::lemma_collapse_members(vs, a);
        let j = choose|j: int|
            0 <= j < vs.len() && crate::collapse::spec_collapse(vs)[a] == #[trigger] vs[j];
        assert(vs[j].size == size);
    }
}

/// One sweep step of the generation driver: processes a subset and
/// carries the shape facts over to the grown interesting set.
#[verifier::rlimit(50)]
fn absorb_combination(
    state: &mut crate::current_state::CurrentState,
    combination: &Vec<usize>,
    combination_length: usize,
    polynomial_verifier: &crate::polynomial_verifier::PolynomialVerifier,
    Ghost(n): Ghost<nat>,
)
    requires
        old(state).wf(),
        polynomial_verifier.wf(),
        combination@.len() >= 1,
        (combination_length as nat) < old(state).combinations_left@.len(),
        forall|i: int| #![trigger old(state).starting_mutated_polynomials@[i]]
            0 <= i < old(state).starting_mutated_polynomials@.len() ==> {
                &&& old(state).starting_mutated_polynomials@[i]@.size
                    == polynomial_verifier.spec_size()
                &&& old(state).starting_mutated_polynomials@[i]@.coeffs.len() == n
            },
        forall|i: int| #![trigger old(state).interesting_polynomials@[i]]
            0 <= i < old(state).interesting_polynomials@.len() ==> {
                &&& old(state).interesting_polynomials@[i]@.size
                    == polynomial_verifier.spec_size()
                &&& old(state).interesting_polynomials@[i]@.coeffs.len() == n
            },
        spec_is_combination(combination@, n, combination@.len() as nat),
    ensures
        final(state).wf(),
        final(state).current_generation == old(state).current_generation,
        final(state).combinations_left@.len() == old(state).combinations_left@.len(),
        crate::collapse::spec_poly_views(final(state).starting_mutated_polynomials@)
            == crate::collapse::spec_poly_views(old(state).starting_mutated_polynomials@),
        forall|i: int| #![trigger final(state).starting_mutated_polynomials@[i]]
            0 <= i < final(state).starting_mutated_polynomials@.len() ==> {
                &&& final(state).starting_mutated_polynomials@[i]@.size
                    == polynomial_verifier.spec_size()
                &&& final(state).starting_mutated_polynomials@[i]@.coeffs.len() == n
            },
        forall|i: int| #![trigger final(state).interesting_polynomials@[i]]
            0 <= i < final(state).interesting_polynomials@.len() ==> {
                &&& final(state).interesting_polynomials@[i]@.size
                    == polynomial_verifier.spec_size()
                &&& final(state).interesting_polynomials@[i]@.coeffs.len() == n
            },
        exists|appended: Seq<crate::polynomial::PolyView>|
            {
                &&& crate::collapse::spec_poly_views(final(state).interesting_polynomials@)
                    == crate::collapse::spec_poly_views(old(state).interesting_polynomials@)
                    + appended
                &&& #[trigger] spec_boundary_views(
                    polynomial_verifier,
                    appended,
                    polynomial_verifier.spec_size(),
                    n,
                )
                &&& spec_subset_batch(
                    polynomial_verifier,
                    crate::collapse::spec_poly_views(old(state).starting_mutated_polynomials@),
                    combination@,
                    appended,
                )
            },
{
    let ghost vsize = polynomial_verifier.spec_size();
    let ghost pre = *state;
    proof {
        assert forall|i: int|
            0 <= i < state.starting_mutated_polynomials@.len() implies spec_is_combination(
            combination@,
            (#[trigger] state.starting_mutated_polynomials@[i]@).coeffs.len(),
            combination@.len() as nat,
        ) by {
            assert(state.starting_mutated_polynomials@[i]@.coeffs.len() == n);
        }
    }
    process_combination(state, combination, combination_length, polynomial_verifier);
    proof {
        let batch = choose|batch: Seq<crate::polynomial::PolyView>|
            {
                &&& crate::collapse::spec_poly_views(state.interesting_polynomials@)
                    == crate::collapse::spec_poly_views(pre.interesting_polynomials@) + (
                #[trigger] crate::collapse::spec_collapse(batch))
                &&& forall|i: int|
                    0 <= i < batch.len() ==> {
                        &&& polynomial_verifier.spec_test(#[trigger] batch[i])
                        &&& !spec_all_at_least(batch[i].coeffs, BOUNDARY_TOLERANCE as int)
                        &&& batch[i].size == polynomial_verifier.spec_size()
                        &&& exists|j: int|
                            0 <= j < pre.starting_mutated_polynomials@.len()
                                && batch[i].coeffs.len() == (
                            #[trigger] pre.starting_mutated_polynomials@[j]@).coeffs.len()
                    }
                &&& forall|i: int| #![trigger batch[i]]
                    0 <= i < batch.len() ==> spec_outcome_of_seeds(
                        polynomial_verifier,
                        crate::collapse::spec_poly_views(pre.starting_mutated_polynomials@),
                        batch[i],
                        combination@,
                    )
            };
        assert forall|i: int|
            0 <= i < batch.len() implies (#[trigger] batch[i]).size == vsize
            && batch[i].coeffs.len() == n by {
            if exists|j: int|
                0 <= j < pre.starting_mutated_polynomials@.len() && batch[i].coeffs.len() == (
                #[trigger] pre.starting_mutated_polynomials@[j]@).coeffs.len() {
                let j = choose|j: int|
                    0 <= j < pre.starting_mutated_polynomials@.len() && batch[i].coeffs.len() == (
                    #[trigger] pre.starting_mutated_polynomials@[j]@).coeffs.len();
                assert(pre.starting_mutated_polynomials@[j]@.coeffs.len() == n);
            }
        }
        lemma_collapse_keeps_facts(batch, vsize, n);
        lemma_view_facts(pre.interesting_polynomials@, vsize, n);
        let newv = crate::collapse::spec_poly_views(state.interesting_polynomials@);
        let oldv = crate::collapse::spec_poly_views(pre.interesting_polynomials@);
        let coll = crate::collapse::spec_collapse(batch);
        assert forall|i: int|
            0 <= i < newv.len() implies (#[trigger] newv[i]).size == vsize && newv[i].coeffs.len()
            == n by {
            if i < oldv.len() {
                assert(newv[i] == oldv[i]);
            } else {
                assert(newv[i] == coll[i - oldv.len()]);
            }
        }
        lemma_poly_facts(state.interesting_polynomials@, vsize, n);
        lemma_poly_facts(state.starting_mutated_polynomials@, vsize, n);
        assert forall|i: int| #![trigger coll[i]]
            0 <= i < coll.len() implies {
            &&& coll[i].size == vsize
            &&& coll[i].coeffs.len() == n
            &&& polynomial_verifier.spec_test(coll[i])
            &&& !spec_all_at_least(coll[i].coeffs, BOUNDARY_TOLERANCE as int)
        } by {
            crate::collapse::lemma_collapse_members(batch, i);
            let j = choose|j: int|
                0 <= j < batch.len() && crate::collapse::spec_collapse(batch)[i]
                    == #[trigger] batch[j];
            assert(polynomial_verifier.spec_test(batch[j]));
        }
        assert(spec_boundary_views(polynomial_verifier, coll, vsize, n));
        let seedviews = crate::collapse::spec_poly_views(pre.starting_mutated_polynomials@);
        assert forall|i: int| #![trigger coll[i]]
            0 <= i < coll.len() implies spec_outcome_of_seeds(
            polynomial_verifier,
            seedviews,
            coll[i],
            combination@,
        ) by {
            crate::collapse::lemma_collapse_members(batch, i);
            let j = choose|j: int|
                0 <= j < batch.len() && crate::collapse::spec_collapse(batch)[i]
                    == #[trigger] batch[j];
            assert(spec_outcome_of_seeds(polynomial_verifier, seedviews, batch[j], combination@));
        }
        if exists|j: int|
            0 <= j < seedviews.len() && polynomial_verifier.spec_test(#[trigger] seedviews[j])
                && !spec_all_at_least(seedviews[j].coeffs, BOUNDARY_TOLERANCE as int) {
            let j = choose|j: int|
                0 <= j < seedviews.len() && polynomial_verifier.spec_test(#[trigger] seedviews[j])
                    && !spec_all_at_least(seedviews[j].coeffs, BOUNDARY_TOLERANCE as int);
            assert(seedviews[j] == pre.starting_mutated_polynomials@[j]@);
            assert(polynomial_verifier.spec_test(
                (pre.starting_mutated_polynomials@[j])@,
            ) && !spec_all_at_least(
                pre.starting_mutated_polynomials@[j]@.coeffs,
                BOUNDARY_TOLERANCE as int,
            ));
            assert(state.interesting_polynomials@.len() > pre.interesting_polynomials@.len());
            assert(newv.len() == oldv.len() + coll.len());
            assert(coll.len() >= 1);
        }
        assert(spec_subset_batch(polynomial_verifier, seedviews, combination@, coll));
    }
}

/// Processes every coefficient-index subset still left in the state
/// (the empty subset left out): minimizes the seeds against each one,
/// in the stored order, absorbing each collapsed batch into the
/// accumulated interesting set and removing the subset as it
/// finishes.  The contract names the whole sweep: one (subset, batch)
/// pair per remaining non-empty subset, each batch a per-subset sweep
/// result of the seeds, and the interesting set grows by exactly the
/// absorption of those batches.
fn sweep_remaining(
    state: &mut crate::current_state::CurrentState,
    polynomial_verifier: &crate::polynomial_verifier::PolynomialVerifier,
    Ghost(n): Ghost<nat>,
)
    requires
        old(state).wf(),
        polynomial_verifier.wf(),
        forall|u: int| #![trigger old(state).starting_mutated_polynomials@[u]]
            0 <= u < old(state).starting_mutated_polynomials@.len() ==> {
                &&& old(state).starting_mutated_polynomials@[u]@.size
                    == polynomial_verifier.spec_size()
                &&& old(state).starting_mutated_polynomials@[u]@.coeffs.len() == n
            },
        forall|u: int| #![trigger old(state).interesting_polynomials@[u]]
            0 <= u < old(state).interesting_polynomials@.len() ==> {
                &&& old(state).interesting_polynomials@[u]@.size
                    == polynomial_verifier.spec_size()
                &&& old(state).interesting_polynomials@[u]@.coeffs.len() == n
            },
        forall|a: int, j: int|
            0 <= a < old(state).combinations_left@.len() && 0 <= j
                < #[trigger] old(state).combinations_left@[a]@.len() ==> spec_is_combination(
                #[trigger] old(state).combinations_left@[a]@[j]@,
                n,
                a as nat,
            ),
    ensures
        final(state).wf(),
        final(state).current_generation == old(state).current_generation,
        crate::collapse::spec_poly_views(final(state).starting_mutated_polynomials@)
            == crate::collapse::spec_poly_views(old(state).starting_mutated_polynomials@),
        forall|u: int| #![trigger final(state).starting_mutated_polynomials@[u]]
            0 <= u < final(state).starting_mutated_polynomials@.len() ==> {
                &&& final(state).starting_mutated_polynomials@[u]@.size
                    == polynomial_verifier.spec_size()
                &&& final(state).starting_mutated_polynomials@[u]@.coeffs.len() == n
            },
        forall|u: int| #![trigger final(state).interesting_polynomials@[u]]
            0 <= u < final(state).interesting_polynomials@.len() ==> {
                &&& final(state).interesting_polynomials@[u]@.size
                    == polynomial_verifier.spec_size()
                &&& final(state).interesting_polynomials@[u]@.coeffs.len() == n
            },
        exists|pairs: Seq<(Seq<usize>, Seq<crate::polynomial::PolyView>)>|
            {
                &&& spec_pair_combos(pairs) == spec_remaining_subsets(
                    old(state).combinations_left@,
                )
                &&& #[trigger] spec_swept(
                    polynomial_verifier,
                    crate::collapse::spec_poly_views(old(state).starting_mutated_polynomials@),
                    pairs,
                )
                &&& crate::collapse::spec_poly_views(final(state).interesting_polynomials@)
                    == spec_absorb(
                    crate::collapse::spec_poly_views(old(state).interesting_polynomials@),
                    spec_pair_batches(pairs),
                )
            },
{
    let ghost groups0 = state.combinations_left@;
    let ghost seedsv0 = crate::collapse::spec_poly_views(state.starting_mutated_polynomials@);
    let ghost init_int = state.interesting_polynomials@;
    let ghost vsize = polynomial_verifier.spec_size();
    let groups = state.combinations_left.len();
    let mut todo: Vec<Vec<usize>> = Vec::new();
    let mut i: usize = 1;
    proof {
        assert(crate::current_state::spec_combo_views(todo@) =~= spec_concat_upto(groups0, 1));
    }
    while i < groups
        invariant
            1 <= i,
            i <= groups || (groups == 0 && i == 1),
            groups as nat == state.combinations_left@.len(),
            groups0 == state.combinations_left@,
            forall|a: int, j: int|
                0 <= a < groups0.len() && 0 <= j < #[trigger] groups0[a]@.len()
                    ==> spec_is_combination(#[trigger] groups0[a]@[j]@, n, a as nat),
            crate::current_state::spec_combo_views(todo@) == spec_concat_upto(groups0, i as int),
            forall|u: int| #![trigger todo@[u]]
                0 <= u < todo@.len() ==> {
                    &&& spec_is_combination(todo@[u]@, n, todo@[u]@.len() as nat)
                    &&& 1 <= todo@[u]@.len() < groups as nat
                },
        decreases groups - i,
    {
        let group_len = state.combinations_left[i].len();
        let mut j: usize = 0;
        while j < group_len
            invariant
                j <= group_len,
                1 <= i < groups,
                groups as nat == state.combinations_left@.len(),
                groups0 == state.combinations_left@,
                group_len as nat == groups0[i as int]@.len(),
                forall|a: int, jj: int|
                    0 <= a < groups0.len() && 0 <= jj < #[trigger] groups0[a]@.len()
                        ==> spec_is_combination(#[trigger] groups0[a]@[jj]@, n, a as nat),
                crate::current_state::spec_combo_views(todo@) == spec_concat_upto(groups0, i as int)
                    + crate::current_state::spec_combo_views(groups0[i as int]@).take(j as int),
                forall|u: int| #![trigger todo@[u]]
                    0 <= u < todo@.len() ==> {
                        &&& spec_is_combination(todo@[u]@, n, todo@[u]@.len() as nat)
                        &&& 1 <= todo@[u]@.len() < groups as nat
                    },
            decreases group_len - j,
        {
            proof {
                assert(spec_is_combination(groups0[i as int]@[j as int]@, n, i as nat));
            }
            let combo = copy_combination(&state.combinations_left[i], j);
            let ghost cv = combo@;
            let ghost todo0 = todo@;
            todo.push(combo);
            proof {
                assert(cv == groups0[i as int]@[j as int]@);
                assert(todo@[todo0.len() as int]@ == cv);
                let prev = crate::current_state::spec_combo_views(todo0);
                let gview = crate::current_state::spec_combo_views(groups0[i as int]@);
                assert(gview[j as int] == cv);
                let lhs = crate::current_state::spec_combo_views(todo@);
                assert forall|u: int|
                    0 <= u < lhs.len() implies #[trigger] lhs[u] == prev.push(cv)[u] by {
                    assert(lhs[u] == todo@[u]@);
                    if u < todo0.len() {
                        assert(todo@[u] == todo0[u]);
                        assert(prev[u] == todo0[u]@);
                    } else {
                        assert(todo@[u]@ == cv);
                    }
                }
                assert(lhs =~= prev.push(cv));
                assert(gview.take(j + 1) =~= gview.take(j as int).push(cv));
                assert(spec_concat_upto(groups0, i as int) + gview.take(j as int).push(cv)
                    =~= (spec_concat_upto(groups0, i as int) + gview.take(j as int)).push(cv));
                assert(lhs == spec_concat_upto(groups0, i as int) + gview.take(j + 1));
            }
            j += 1;
        }
        proof {
            assert(crate::current_state::spec_combo_views(groups0[i as int]@).take(
                group_len as int,
            ) =~= crate::current_state::spec_combo_views(groups0[i as int]@));
            assert(spec_concat_upto(groups0, i as int + 1) == spec_concat_upto(groups0, i as int)
                + crate::current_state::spec_combo_views(groups0[i as int]@));
        }
        i += 1;
    }
    proof {
        assert(crate::current_state::spec_combo_views(todo@) == spec_concat_upto(
            groups0,
            i as int,
        ));
        assert(groups0.len() == groups as nat);
        if groups == 0 {
            assert(i == 1);
            assert(spec_concat_upto(groups0, 0) =~= spec_concat_upto(groups0, 1));
            assert(spec_concat_upto(groups0, groups0.len() as int) == spec_concat_upto(
                groups0,
                1,
            ));
        } else {
            assert(i == groups);
            assert(spec_concat_upto(groups0, groups0.len() as int) == spec_concat_upto(
                groups0,
                i as int,
            ));
        }
        assert(crate::current_state::spec_combo_views(todo@) == spec_remaining_subsets(groups0));
    }
    let ghost mut pairs: Seq<(Seq<usize>, Seq<crate::polynomial::PolyView>)> = Seq::empty();
    let todo_len = todo.len();
    let mut t: usize = 0;
    proof {
        assert(spec_pair_combos(pairs) =~= crate::current_state::spec_combo_views(todo@).take(0));
        assert(spec_pair_batches(pairs)
            =~= Seq::<Seq<crate::polynomial::PolyView>>::empty());
        assert(spec_absorb(
            crate::collapse::spec_poly_views(init_int),
            Seq::<Seq<crate::polynomial::PolyView>>::empty(),
        ) == crate::collapse::spec_poly_views(init_int));
    }
    while t < todo_len
        invariant
            t <= todo_len,
            todo_len as nat == todo@.len(),
            polynomial_verifier.wf(),
            vsize == polynomial_verifier.spec_size(),
            state.wf(),
            state.combinations_left@.len() == groups as nat,
            state.current_generation == old(state).current_generation,
            crate::collapse::spec_poly_views(state.starting_mutated_polynomials@) == seedsv0,
            forall|u: int| #![trigger todo@[u]]
                0 <= u < todo@.len() ==> {
                    &&& spec_is_combination(todo@[u]@, n, todo@[u]@.len() as nat)
                    &&& 1 <= todo@[u]@.len() < groups as nat
                },
            forall|u: int| #![trigger state.starting_mutated_polynomials@[u]]
                0 <= u < state.starting_mutated_polynomials@.len() ==> {
                    &&& state.starting_mutated_polynomials@[u]@.size == vsize
                    &&& state.starting_mutated_polynomials@[u]@.coeffs.len() == n
                },
            forall|u: int| #![trigger state.interesting_polynomials@[u]]
                0 <= u < state.interesting_polynomials@.len() ==> {
                    &&& state.interesting_polynomials@[u]@.size == vsize
                    &&& state.interesting_polynomials@[u]@.coeffs.len() == n
                },
            spec_pair_combos(pairs) == crate::current_state::spec_combo_views(todo@).take(
                t as int,
            ),
            spec_swept(polynomial_verifier, seedsv0, pairs),
            crate::collapse::spec_poly_views(state.interesting_polynomials@) == spec_absorb(
                crate::collapse::spec_poly_views(init_int),
                spec_pair_batches(pairs),
            ),
        decreases todo_len - t,
    {
        let combination_length = todo[t].len();
        let ghost pre_int = state.interesting_polynomials@;
        let ghost pre_start = state.starting_mutated_polynomials@;
        absorb_combination(
            state,
            &todo[t],
            combination_length,
            polynomial_verifier,
            Ghost(n),
        );
        proof {
            let appended = choose|appended: Seq<crate::polynomial::PolyView>|
                {
                    &&& crate::collapse::spec_poly_views(state.interesting_polynomials@)
                        == crate::collapse::spec_poly_views(pre_int) + appended
                    &&& #[trigger] spec_boundary_views(polynomial_verifier, appended, vsize, n)
                    &&& spec_subset_batch(
                        polynomial_verifier,
                        crate::collapse::spec_poly_views(pre_start),
                        todo@[t as int]@,
                        appended,
                    )
                };
            let pairs0 = pairs;
            pairs = pairs.push((todo@[t as int]@, appended));
            assert(spec_pair_combos(pairs) =~= spec_pair_combos(pairs0).push(todo@[t as int]@));
            assert(crate::current_state::spec_combo_views(todo@).take(t + 1)
                =~= crate::current_state::spec_combo_views(todo@).take(t as int).push(
                todo@[t as int]@,
            ));
            assert(spec_pair_batches(pairs) =~= spec_pair_batches(pairs0).push(appended));
            lemma_absorb_push(
                crate::collapse::spec_poly_views(init_int),
                spec_pair_batches(pairs0),
                appended,
            );
            assert forall|c: int| #![trigger pairs[c]]
                0 <= c < pairs.len() implies spec_subset_batch(
                polynomial_verifier,
                seedsv0,
                pairs[c].0,
                pairs[c].1,
            ) by {
                if c < pairs0.len() {
                    assert(pairs[c] == pairs0[c]);
                } else {
                    assert(pairs[c] == (todo@[t as int]@, appended));
                }
            }
        }
        t += 1;
    }
    proof {
        assert(spec_pair_combos(pairs) =~= crate::current_state::spec_combo_views(todo@));
        assert(spec_pair_combos(pairs) == spec_remaining_subsets(groups0));
    }
}

/// Resumes a search run from a saved state: rebuilds the probe corpus,
/// processes every coefficient-index subset still left (skipping the
/// empty one), and returns the collapsed accumulated boundary
/// candidates.  No completed subset is reprocessed: each one is
/// removed from the state as it finishes.  The contract names the
/// whole resumed sweep: under the freshly built corpus there is one
/// (subset, batch) pair per remaining non-empty subset, each batch a
/// per-subset sweep result of the checkpoint's seeds, and the result
/// collapses the checkpoint's accumulated candidates together with
/// the absorbed batches.
pub fn continue_mutating_polynomial(current_state: crate::current_state::CurrentState, matrices_to_fuzz: usize) -> (r: Vec<Polynomial>)
    requires
        current_state.wf(),
        current_state.starting_mutated_polynomials@.len() >= 1,
        forall|t: int| #![trigger current_state.starting_mutated_polynomials@[t]]
            0 <= t < current_state.starting_mutated_polynomials@.len() ==> {
                &&& current_state.starting_mutated_polynomials@[t]@.size
                    == current_state.starting_mutated_polynomials@[0]@.size
                &&& current_state.starting_mutated_polynomials@[t]@.coeffs.len()
                    == current_state.starting_mutated_polynomials@[0]@.coeffs.len()
            },
        forall|t: int| #![trigger current_state.interesting_polynomials@[t]]
            0 <= t < current_state.interesting_polynomials@.len() ==> {
                &&& current_state.interesting_polynomials@[t]@.size
                    == current_state.starting_mutated_polynomials@[0]@.size
                &&& current_state.interesting_polynomials@[t]@.coeffs.len()
                    == current_state.starting_mutated_polynomials@[0]@.coeffs.len()
            },
        forall|i: int, j: int|
            0 <= i < current_state.combinations_left@.len() && 0 <= j
                < #[trigger] current_state.combinations_left@[i]@.len() ==> spec_is_combination(
                #[trigger] current_state.combinations_left@[i]@[j]@,
                current_state.starting_mutated_polynomials@[0]@.coeffs.len(),
                i as nat,
            ),
    ensures
        forall|i: int| 0 <= i < r@.len() ==> #[trigger] r@[i].wf(),
        exists|
            v: crate::polynomial_verifier::PolynomialVerifier,
            pairs: Seq<(Seq<usize>, Seq<crate::polynomial::PolyView>)>,
        |
            {
                &&& v.wf()
                &&& v.spec_size() == current_state.starting_mutated_polynomials@[0]@.size
                &&& spec_pair_combos(pairs) == spec_remaining_subsets(
                    current_state.combinations_left@,
                )
                &&& #[trigger] spec_swept(
                    &v,
                    crate::collapse::spec_poly_views(
                        current_state.starting_mutated_polynomials@,
                    ),
                    pairs,
                )
                &&& crate::collapse::spec_poly_views(r@) == crate::collapse::spec_collapse(
                    spec_absorb(
                        crate::collapse::spec_poly_views(
                            current_state.interesting_polynomials@,
                        ),
                        spec_pair_batches(pairs),
                    ),
                )
            },
{
    let ghost l = current_state.starting_mutated_polynomials@[0]@.coeffs.len();
    let mut state = current_state;
    proof {
        assert(state.starting_mutated_polynomials@[0].wf());
    }
    let size = state.starting_mutated_polynomials[0].get_size();
    let polynomial_verifier = crate::polynomial_verifier::PolynomialVerifier::new(
        matrices_to_fuzz,
        size,
    );
    sweep_remaining(&mut state, &polynomial_verifier, Ghost(l));
    let r = crate::collapse::collapse_polynomials(&state.interesting_polynomials);
    proof {
        let pairs = choose|pairs: Seq<(Seq<usize>, Seq<crate::polynomial::PolyView>)>|
            {
                &&& spec_pair_combos(pairs) == spec_remaining_subsets(
                    current_state.combinations_left@,
                )
                &&& #[trigger] spec_swept(
                    &polynomial_verifier,
                    crate::collapse::spec_poly_views(
                        current_state.starting_mutated_polynomials@,
                    ),
                    pairs,
                )
                &&& crate::collapse::spec_poly_views(state.interesting_polynomials@)
                    == spec_absorb(
                    crate::collapse::spec_poly_views(current_state.interesting_polynomials@),
                    spec_pair_batches(pairs),
                )
            };
        assert(crate::collapse::spec_poly_views(r@) == crate::collapse::spec_collapse(
            spec_absorb(
                crate::collapse::spec_poly_views(current_state.interesting_polynomials@),
                spec_pair_batches(pairs),
            ),
        ));
    }
    r
}

/// Copies one stored combination out of a group.
fn copy_combination(group: &Vec<Vec<usize>>, j: usize) -> (r: Vec<usize>)
    requires
        (j as nat) < group@.len(),
    ensures
        r@ == group@[j as int]@,
{
    let src = &group[j];
    let ghost sv = src@;
    let n = src.len();
    let mut out: Vec<usize> = Vec::new();
    let mut t: usize = 0;
    while t < n
        invariant
            t <= n,
            n as nat == sv.len(),
            sv == src@,
            out@.len() == t as nat,
            forall|u: int| 0 <= u < t ==> out@[u] == sv[u],
        decreases n - t,
    {
        out.push(src[t]);
        t += 1;
    }
    proof {
        assert(out@ =~= sv);
        assert(sv == group@[j as int]@);
    }
    out
}

} // verus!
