use vstd::prelude::*;
use itertools::Itertools;

verus! {

/// `s` is a `k`-element subset of `{0, .., n - 1}`, written as a
/// strictly increasing index vector.
pub open spec fn spec_is_combination(s: Seq<usize>, n: nat, k: nat) -> bool {
    &&& s.len() == k
    &&& forall|t: int| 0 <= t < s.len() ==> (#[trigger] s[t] as nat) < n
    &&& forall|t: int| 0 <= t < s.len() - 1 ==> #[trigger] s[t] < s[t + 1]
}

/// Relies on `itertools::Itertools::combinations` over the range
/// `0..n`: it yields every `k`-element combination of the range
/// exactly once, each as a strictly increasing vector, and nothing
/// else (for `k > n` there are none; for `k == 0` only the empty one).
#[verifier::external_body]
pub(crate) fn combinations_of(n: usize, k: usize) -> (r: Vec<Vec<usize>>)
    ensures
        forall|i: int|
            0 <= i < r@.len() ==> spec_is_combination(#[trigger] r@[i]@, n as nat, k as nat),
        forall|s: Seq<usize>|
            spec_is_combination(s, n as nat, k as nat) ==> exists|i: int|
                0 <= i < r@.len() && #[trigger] r@[i]@ == s,
        forall|i: int, j: int| 0 <= i < j < r@.len() ==> r@[i]@ != r@[j]@,
{
    (0..n).combinations(k).collect()
}

} // verus!
