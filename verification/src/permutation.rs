//! Permutations of the indices `0..n`, as sequences.

use vstd::prelude::*;
use vstd::seq_lib::*;
use vstd::set_lib::*;

verus! {

/// `s` lists each of the indices `0..n` exactly once.
pub open spec fn is_permutation(s: Seq<usize>, n: nat) -> bool {
    &&& s.len() == n
    &&& forall|i: int| 0 <= i < s.len() ==> (#[trigger] s[i]) < n
    &&& s.no_duplicates()
}

/// The indices `0..n` in ascending order.
pub open spec fn identity(n: nat) -> Seq<usize> {
    Seq::new(n, |i: int| i as usize)
}

/// `s` with the entries at `i` and `j` exchanged.
pub open spec fn swapped(s: Seq<usize>, i: int, j: int) -> Seq<usize> {
    s.update(i, s[j]).update(j, s[i])
}

/// `s` after the first `k` entries of `plan` have been carried out, one
/// after the other: entry `i`, where it names a position `j`, exchanges the
/// entries of the sequence at `i` and `j`; where it names none, it leaves
/// the sequence as it is.
pub open spec fn after_swaps(s: Seq<usize>, plan: Seq<Option<usize>>, k: nat) -> Seq<usize>
    decreases k,
{
    if k == 0 {
        s
    } else {
        let earlier = after_swaps(s, plan, (k - 1) as nat);
        match plan[k - 1] {
            Some(j) => swapped(earlier, k - 1, j as int),
            None => earlier,
        }
    }
}

/// What the first `k` entries of a plan do does not depend on the entries
/// that follow them.
pub proof fn lemma_after_swaps_of_longer_plan(
    s: Seq<usize>,
    plan: Seq<Option<usize>>,
    longer: Seq<Option<usize>>,
    k: nat,
)
    requires
        k <= plan.len() <= longer.len(),
        forall|i: int| 0 <= i < plan.len() ==> longer[i] == plan[i],
    ensures
        after_swaps(s, longer, k) == after_swaps(s, plan, k),
    decreases k,
{
    if k > 0 {
        lemma_after_swaps_of_longer_plan(s, plan, longer, (k - 1) as nat);
    }
}

/// A plan whose entries name positions of the sequence only rearranges it:
/// the length stays, and every value is there as often as before.
pub proof fn lemma_after_swaps_is_rearrangement(s: Seq<usize>, plan: Seq<Option<usize>>, k: nat)
    requires
        k <= plan.len(),
        k <= s.len(),
        forall|i: int| 0 <= i < plan.len() ==> (#[trigger] plan[i] matches Some(j) ==> j < s.len()),
    ensures
        after_swaps(s, plan, k).len() == s.len(),
        after_swaps(s, plan, k).to_multiset() == s.to_multiset(),
    decreases k,
{
    if k > 0 {
        lemma_after_swaps_is_rearrangement(s, plan, (k - 1) as nat);
        let earlier = after_swaps(s, plan, (k - 1) as nat);
        match plan[k - 1] {
            Some(j) => {
                lemma_swapped_is_rearrangement(earlier, k - 1, j as int);
            },
            None => {},
        }
    }
}

/// A permutation of `0..n` leaves no index out.
pub proof fn lemma_permutation_covers(s: Seq<usize>, n: nat)
    requires
        is_permutation(s, n),
    ensures
        forall|c: usize| c < n ==> s.contains(c),
{
    let t = Seq::new(s.len(), |i: int| s[i] as int);
    let r = set_int_range(0, n as int);
    assert(t.no_duplicates());
    t.unique_seq_to_set();
    lemma_int_range(0, n as int);
    seq_to_set_is_finite(t);
    assert forall|x: int| t.to_set().contains(x) implies r.contains(x) by {
        let i = choose|i: int| 0 <= i < t.len() && t[i] == x;
        assert(s[i] < n);
    }
    lemma_subset_equality(t.to_set(), r);
    assert forall|c: usize| c < n implies s.contains(c) by {
        assert(r.contains(c as int));
        assert(t.contains(c as int));
        let i = choose|i: int| 0 <= i < t.len() && t[i] == c as int;
        assert(s[i] == c);
    }
}

/// The ascending order is a permutation.
pub proof fn lemma_identity_is_permutation(n: nat)
    requires
        n <= usize::MAX,
    ensures
        is_permutation(identity(n), n),
{
}

/// Exchanging two entries of a permutation gives a permutation.
pub proof fn lemma_swapped_is_permutation(s: Seq<usize>, n: nat, i: int, j: int)
    requires
        is_permutation(s, n),
        0 <= i < n,
        0 <= j < n,
    ensures
        is_permutation(swapped(s, i, j), n),
{
    let t = swapped(s, i, j);
    assert forall|a: int, b: int| 0 <= a < t.len() && 0 <= b < t.len() && a != b implies t[a]
        != t[b] by {
        let pa = if a == i { j } else if a == j { i } else { a };
        let pb = if b == i { j } else if b == j { i } else { b };
        assert(t[a] == s[pa]);
        assert(t[b] == s[pb]);
        assert(pa != pb);
    }
}

/// Exchanging two entries keeps every value as often as it was there.
pub proof fn lemma_swapped_is_rearrangement(s: Seq<usize>, i: int, j: int)
    requires
        0 <= i < s.len(),
        0 <= j < s.len(),
    ensures
        swapped(s, i, j).to_multiset() == s.to_multiset(),
{
    broadcast use vstd::multiset::group_multiset_axioms;

    let u = s.update(i, s[j]);
    to_multiset_update(s, i, s[j]);
    to_multiset_update(u, j, s[i]);
    to_multiset_contains(s, s[i]);
    to_multiset_contains(s, s[j]);
    assert(u[j] == s[j]);
    assert(swapped(s, i, j).to_multiset() =~= s.to_multiset());
}

/// A sequence that holds the values of a permutation, each as often, is a
/// permutation of the same indices.
pub proof fn lemma_rearrangement_is_permutation(s: Seq<usize>, t: Seq<usize>, n: nat)
    requires
        is_permutation(s, n),
        t.to_multiset() == s.to_multiset(),
    ensures
        is_permutation(t, n),
{
    broadcast use vstd::multiset::group_multiset_axioms;

    to_multiset_len(s);
    to_multiset_len(t);
    assert forall|i: int| 0 <= i < t.len() implies (#[trigger] t[i]) < n by {
        to_multiset_contains(t, t[i]);
        to_multiset_contains(s, t[i]);
        assert(t.contains(t[i]));
        assert(s.contains(t[i]));
    }
    s.lemma_multiset_has_no_duplicates();
    t.lemma_multiset_has_no_duplicates_conv();
}

/// Tells whether `v` is a permutation of `0..n`.
pub fn check_permutation(v: &Vec<usize>, n: usize) -> (ok: bool)
    ensures
        ok == is_permutation(v@, n as nat),
{
    if v.len() != n {
        return false;
    }
    let mut seen: Vec<bool> = Vec::new();
    let mut k: usize = 0;
    while k < n
        invariant
            k <= n,
            seen.len() == k,
            forall|c: int| 0 <= c < k ==> !seen[c],
        decreases n - k,
    {
        seen.push(false);
        k += 1;
    }
    let mut i: usize = 0;
    while i < n
        invariant
            i <= n,
            v.len() == n,
            seen.len() == n,
            forall|a: int| 0 <= a < i ==> (#[trigger] v[a]) < n,
            forall|a: int, b: int| 0 <= a < b < i ==> v[a] != v[b],
            forall|c: int| 0 <= c < n ==> (seen[c] <==> exists|a: int| 0 <= a < i && v[a] == c),
        decreases n - i,
    {
        let c = v[i];
        if c >= n {
            return false;
        }
        if seen[c] {
            proof {
                let a = choose|a: int| 0 <= a < i && v[a] == c;
                assert(v@[a] == v@[i as int]);
            }
            return false;
        }
        seen.set(c, true);
        proof {
            assert forall|d: int| 0 <= d < n implies (seen[d] <==> exists|a: int|
                0 <= a < i + 1 && v[a] == d) by {
                if d == c {
                    assert(v[i as int] == d);
                } else if seen[d] {
                    let a = choose|a: int| 0 <= a < i && v[a] == d;
                    assert(0 <= a < i + 1 && v[a] == d);
                }
            }
        }
        i += 1;
    }
    true
}

} // verus!
