use vstd::prelude::*;
use crate::collapse::{spec_collapse, spec_poly_views};
use crate::combos::{combinations_of, spec_is_combination};
use crate::polynomial::Polynomial;

verus! {

/// The views of a list of index combinations.
pub open spec fn spec_combo_views(s: Seq<Vec<usize>>) -> Seq<Seq<usize>> {
    s.map_values(|c: Vec<usize>| c@)
}

/// `s` with every combination equal to `target` removed, keeping the
/// order of the rest.
pub open spec fn spec_without(s: Seq<Seq<usize>>, target: Seq<usize>) -> Seq<Seq<usize>>
    decreases s.len(),
{
    if s.len() == 0 {
        Seq::empty()
    } else {
        let rest = spec_without(s.drop_last(), target);
        if s.last() == target {
            rest
        } else {
            rest.push(s.last())
        }
    }
}

/// The persistent record of a search run: the current generation's
/// seed polynomials, the coefficient-index subsets still to process
/// (grouped by subset size), the boundary candidates accumulated so
/// far, and the generation counter.  Mutated only by the orchestrating
/// loop; persisting it and loading it back is the caller's concern.
pub struct CurrentState {
    pub starting_mutated_polynomials: Vec<Polynomial>,
    pub combinations_left: Vec<Vec<Vec<usize>>>,
    pub interesting_polynomials: Vec<Polynomial>,
    pub current_generation: usize,
}

impl CurrentState {
    /// Every stored polynomial is well-formed.
    pub open spec fn wf(&self) -> bool {
        &&& forall|i: int|
            0 <= i < self.starting_mutated_polynomials@.len()
                ==> #[trigger] self.starting_mutated_polynomials@[i].wf()
        &&& forall|i: int|
            0 <= i < self.interesting_polynomials@.len()
                ==> #[trigger] self.interesting_polynomials@[i].wf()
    }

    /// A fresh state for polynomials of `polynomial_length`
    /// coefficients: no seeds, no accumulated candidates, and for each
    /// subset size `i` below the length the full list of
    /// coefficient-index subsets of that size, none processed yet.
    pub fn new(polynomial_length: usize, current_generation: usize) -> (r: CurrentState)
        ensures
            r.wf(),
            r.starting_mutated_polynomials@.len() == 0,
            r.interesting_polynomials@.len() == 0,
            r.current_generation == current_generation,
            r.combinations_left@.len() == polynomial_length as nat,
            forall|i: int, j: int|
                0 <= i < polynomial_length && 0 <= j < #[trigger] r.combinations_left@[i]@.len()
                    ==> spec_is_combination(
                    #[trigger] r.combinations_left@[i]@[j]@,
                    polynomial_length as nat,
                    i as nat,
                ),
            forall|i: int, s: Seq<usize>|
                0 <= i < polynomial_length && #[trigger] spec_is_combination(
                    s,
                    polynomial_length as nat,
                    i as nat,
                ) ==> exists|j: int|
                    0 <= j < r.combinations_left@[i]@.len() && #[trigger] r.combinations_left@[i]@[j]@
                        == s,
            forall|i: int, j1: int, j2: int|
                #![trigger r.combinations_left@[i]@[j1], r.combinations_left@[i]@[j2]]
                0 <= i < polynomial_length && 0 <= j1 < j2 < r.combinations_left@[i]@.len()
                    ==> r.combinations_left@[i]@[j1]@ != r.combinations_left@[i]@[j2]@,
    {
        let mut combinations_left: Vec<Vec<Vec<usize>>> = Vec::new();
        let mut i: usize = 0;
        while i < polynomial_length
            invariant
                i <= polynomial_length,
                combinations_left@.len() == i as nat,
                forall|a: int, j: int|
                    0 <= a < i && 0 <= j < #[trigger] combinations_left@[a]@.len()
                        ==> spec_is_combination(
                        #[trigger] combinations_left@[a]@[j]@,
                        polynomial_length as nat,
                        a as nat,
                    ),
                forall|a: int, s: Seq<usize>|
                    0 <= a < i && #[trigger] spec_is_combination(
                        s,
                        polynomial_length as nat,
                        a as nat,
                    ) ==> exists|j: int|
                        0 <= j < combinations_left@[a]@.len()
                            && #[trigger] combinations_left@[a]@[j]@ == s,
                forall|a: int, j1: int, j2: int|
                    #![trigger combinations_left@[a]@[j1], combinations_left@[a]@[j2]]
                    0 <= a < i && 0 <= j1 < j2 < combinations_left@[a]@.len()
                        ==> combinations_left@[a]@[j1]@ != combinations_left@[a]@[j2]@,
            decreases polynomial_length - i,
        {
            let combos = combinations_of(polynomial_length, i);
            let ghost combos_v = combos@;
            let ghost old_cl = combinations_left@;
            combinations_left.push(combos);
            proof {
                assert(combinations_left@[i as int]@ == combos_v);
                assert forall|a: int, s: Seq<usize>|
                    0 <= a < i + 1 && #[trigger] spec_is_combination(
                        s,
                        polynomial_length as nat,
                        a as nat,
                    ) implies exists|j: int|
                    0 <= j < combinations_left@[a]@.len()
                        && #[trigger] combinations_left@[a]@[j]@ == s by {
                    if a < i {
                        assert(combinations_left@[a] == old_cl[a]);
                        let j0 = choose|j: int|
                            0 <= j < old_cl[a]@.len() && #[trigger] old_cl[a]@[j]@ == s;
                        assert(combinations_left@[a]@[j0]@ == s);
                    } else {
                        let j0 = choose|j: int|
                            0 <= j < combos_v.len() && #[trigger] combos_v[j]@ == s;
                        assert(combinations_left@[a]@[j0]@ == s);
                    }
                }
                assert forall|a: int, j1: int, j2: int|
                    #![trigger combinations_left@[a]@[j1], combinations_left@[a]@[j2]]
                    0 <= a < i + 1 && 0 <= j1 < j2 < combinations_left@[a]@.len()
                        implies combinations_left@[a]@[j1]@ != combinations_left@[a]@[j2]@ by {
                    if a < i {
                        assert(combinations_left@[a] == old_cl[a]);
                    } else {
                        assert(combinations_left@[a]@ == combos_v);
                        assert(combos_v[j1]@ != combos_v[j2]@);
                    }
                }
            }
            i += 1;
        }
        CurrentState {
            starting_mutated_polynomials: Vec::new(),
            combinations_left,
            interesting_polynomials: Vec::new(),
            current_generation,
        }
    }

    /// Marks one subset as processed: removes it from its size group.
    pub fn remove_combination(&mut self, combination: &Vec<usize>, combination_length: usize)
        requires
            (combination_length as nat) < old(self).combinations_left@.len(),
        ensures
            spec_combo_views(final(self).combinations_left@[combination_length as int]@)
                == spec_without(
                spec_combo_views(old(self).combinations_left@[combination_length as int]@),
                combination@,
            ),
            final(self).combinations_left@.len() == old(self).combinations_left@.len(),
            forall|i: int|
                0 <= i < old(self).combinations_left@.len() && i != combination_length as int
                    ==> #[trigger] final(self).combinations_left@[i]
                    == old(self).combinations_left@[i],
            final(self).starting_mutated_polynomials == old(self).starting_mutated_polynomials,
            final(self).interesting_polynomials == old(self).interesting_polynomials,
            final(self).current_generation == old(self).current_generation,
    {
        let group = &self.combinations_left[combination_length];
        let n = group.len();
        let mut kept: Vec<Vec<usize>> = Vec::new();
        let mut j: usize = 0;
        while j < n
            invariant
                j <= n,
                n as nat == self.combinations_left@[combination_length as int]@.len(),
                (combination_length as nat) < self.combinations_left@.len(),
                spec_combo_views(kept@) == spec_without(
                    spec_combo_views(
                        self.combinations_left@[combination_length as int]@.take(j as int),
                    ),
                    combination@,
                ),
            decreases n - j,
        {
            let ghost group_v = spec_combo_views(
                self.combinations_left@[combination_length as int]@,
            );
            let entry = &self.combinations_left[combination_length][j];
            let same = equal_combos(entry, combination);
            proof {
                let pref = self.combinations_left@[combination_length as int]@.take(j as int);
                let prefx = self.combinations_left@[combination_length as int]@.take(j + 1);
                assert(prefx.drop_last() =~= pref);
                assert(prefx.last() == self.combinations_left@[combination_length as int]@[j as int]);
                assert(spec_combo_views(prefx).drop_last() =~= spec_combo_views(pref));
                assert(spec_combo_views(prefx).last() == entry@);
                assert(spec_without(spec_combo_views(prefx), combination@) == if entry@
                    == combination@ {
                    spec_without(spec_combo_views(pref), combination@)
                } else {
                    spec_without(spec_combo_views(pref), combination@).push(entry@)
                });
            }
            if !same {
                let copy = copy_combo(entry);
                kept.push(copy);
                proof {
                    assert(spec_combo_views(kept@) =~= spec_without(
                        spec_combo_views(
                            self.combinations_left@[combination_length as int]@.take(j + 1),
                        ),
                        combination@,
                    ));
                }
            }
            j += 1;
        }
        proof {
            assert(self.combinations_left@[combination_length as int]@.take(n as int)
                =~= self.combinations_left@[combination_length as int]@);
        }
        self.combinations_left.set(combination_length, kept);
    }

    /// Ends a generation: collapses the accumulated candidates, copies
    /// them over as the next generation's seeds, and advances the
    /// generation counter.
    pub fn finish_generation(&mut self)
        requires
            old(self).wf(),
            old(self).current_generation < usize::MAX,
        ensures
            final(self).wf(),
            spec_poly_views(final(self).interesting_polynomials@) == spec_collapse(
                spec_poly_views(old(self).interesting_polynomials@),
            ),
            spec_poly_views(final(self).starting_mutated_polynomials@) == spec_poly_views(
                final(self).interesting_polynomials@,
            ),
            final(self).current_generation == old(self).current_generation + 1,
            final(self).combinations_left == old(self).combinations_left,
    {
        let collapsed = crate::collapse::collapse_polynomials(&self.interesting_polynomials);
        let seeds = clone_polynomials(&collapsed);
        let ghost collv = collapsed@;
        let ghost seedv = seeds@;
        self.interesting_polynomials = collapsed;
        self.starting_mutated_polynomials = seeds;
        self.current_generation = self.current_generation + 1;
        proof {
            assert(spec_poly_views(seedv).len() == seedv.len());
            assert(spec_poly_views(collv).len() == collv.len());
            assert(seedv.len() == collv.len());
            assert forall|i: int|
                0 <= i < self.interesting_polynomials@.len() implies #[trigger] self.interesting_polynomials@[i].wf() by {
                assert(collv[i].wf());
            }
            assert forall|i: int|
                0 <= i < self.starting_mutated_polynomials@.len() implies #[trigger] self.starting_mutated_polynomials@[i].wf() by {
                assert(collv[i].wf());
                assert(seedv[i].wf());
            }
        }
    }
}

/// Compares two index combinations for equality.
fn equal_combos(a: &Vec<usize>, b: &Vec<usize>) -> (r: bool)
    ensures
        r == (a@ == b@),
{
    let n = a.len();
    if n != b.len() {
        proof {
            assert(a@.len() != b@.len());
        }
        return false;
    }
    let mut t: usize = 0;
    while t < n
        invariant
            t <= n,
            n as nat == a@.len(),
            n as nat == b@.len(),
            forall|u: int| 0 <= u < t ==> a@[u] == b@[u],
        decreases n - t,
    {
        if a[t] != b[t] {
            return false;
        }
        t += 1;
    }
    proof {
        assert(a@ =~= b@);
    }
    true
}

/// Copies an index combination.
fn copy_combo(a: &Vec<usize>) -> (r: Vec<usize>)
    ensures
        r@ == a@,
{
    let mut out: Vec<usize> = Vec::new();
    let n = a.len();
    let mut t: usize = 0;
    while t < n
        invariant
            t <= n,
            n as nat == a@.len(),
            out@.len() == t as nat,
            forall|u: int| 0 <= u < t ==> out@[u] == a@[u],
        decreases n - t,
    {
        out.push(a[t]);
        t += 1;
    }
    proof {
        assert(out@ =~= a@);
    }
    out
}

/// Copies a list of polynomials, preserving every view.
pub fn clone_polynomials(polynomials: &Vec<Polynomial>) -> (r: Vec<Polynomial>)
    ensures
        spec_poly_views(r@) == spec_poly_views(polynomials@),
        forall|i: int|
            0 <= i < polynomials@.len() && polynomials@[i].wf() ==> #[trigger] r@[i].wf(),
{
    let mut out: Vec<Polynomial> = Vec::new();
    let n = polynomials.len();
    let mut t: usize = 0;
    while t < n
        invariant
            t <= n,
            n as nat == polynomials@.len(),
            out@.len() == t as nat,
            forall|u: int| 0 <= u < t ==> #[trigger] out@[u]@ == polynomials@[u]@,
        decreases n - t,
    {
        let cl = polynomials[t].clone();
        proof {
            assert(cl@.coeffs =~= polynomials@[t as int]@.coeffs);
        }
        out.push(cl);
        t += 1;
    }
    proof {
        assert forall|i: int|
            0 <= i < spec_poly_views(out@).len() implies #[trigger] spec_poly_views(out@)[i]
            == spec_poly_views(polynomials@)[i] by {
            assert(spec_poly_views(out@)[i] == out@[i]@);
            assert(out@[i]@ == polynomials@[i]@);
        }
        assert(spec_poly_views(out@) =~= spec_poly_views(polynomials@));
        assert forall|i: int|
            0 <= i < polynomials@.len() && polynomials@[i].wf() implies #[trigger] out@[i].wf() by {
            assert(out@[i]@ == polynomials@[i]@);
        }
    }
    out
}

} // verus!
