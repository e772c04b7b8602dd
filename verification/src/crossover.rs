//! Partially mapped crossover of two permutations.
//!
//! The child starts as a copy of the first parent. For each position of the
//! chosen segment in turn, the value that the second parent has there is
//! brought to that position by exchanging it with the value that stands
//! there. Every step exchanges two entries, so the child is a permutation,
//! and on the segment it agrees with the second parent.

use crate::permutation::{
    is_permutation, lemma_permutation_covers, lemma_swapped_is_permutation, swapped,
};
use vstd::prelude::*;

verus! {

/// A position at which `s` holds `x`.
pub open spec fn position_of(s: Seq<usize>, x: usize) -> int {
    choose|i: int| 0 <= i < s.len() && s[i] == x
}

/// The child of `base` and `donor` for the segment from `lo` up to, not
/// including, `hi`.
pub open spec fn pmx(base: Seq<usize>, donor: Seq<usize>, lo: int, hi: int) -> Seq<usize>
    decreases hi - lo,
{
    if hi <= lo {
        base
    } else {
        let earlier = pmx(base, donor, lo, hi - 1);
        swapped(earlier, hi - 1, position_of(earlier, donor[hi - 1]))
    }
}

/// `child` is the child of `base` and `donor` for some segment that is not
/// empty.
pub open spec fn is_crossover(child: Seq<usize>, base: Seq<usize>, donor: Seq<usize>) -> bool {
    exists|lo: int, hi: int|
        #![trigger pmx(base, donor, lo, hi)]
        0 <= lo < hi <= base.len() && child == pmx(base, donor, lo, hi)
}

/// In a permutation each value stands at one position only.
pub proof fn lemma_position_of(s: Seq<usize>, n: nat, i: int)
    requires
        is_permutation(s, n),
        0 <= i < n,
    ensures
        position_of(s, s[i]) == i,
{
    let p = position_of(s, s[i]);
    assert(0 <= p < s.len() && s[p] == s[i]);
}

/// The child of two permutations of the same indices is a permutation of
/// them, and on the segment it holds what the donor holds.
pub proof fn lemma_pmx(base: Seq<usize>, donor: Seq<usize>, n: nat, lo: int, hi: int)
    requires
        is_permutation(base, n),
        is_permutation(donor, n),
        0 <= lo <= hi <= n,
    ensures
        is_permutation(pmx(base, donor, lo, hi), n),
        forall|i: int| lo <= i < hi ==> pmx(base, donor, lo, hi)[i] == donor[i],
        lo == hi ==> pmx(base, donor, lo, hi) == base,
    decreases hi - lo,
{
    if lo < hi {
        lemma_pmx(base, donor, n, lo, hi - 1);
        let earlier = pmx(base, donor, lo, hi - 1);
        let x = donor[hi - 1];
        lemma_permutation_covers(earlier, n);
        assert(earlier.contains(x));
        let p = position_of(earlier, x);
        assert(0 <= p < n && earlier[p] == x);
        assert(!(lo <= p < hi - 1)) by {
            if lo <= p < hi - 1 {
                assert(earlier[p] == donor[p]);
                assert(donor[p] != donor[hi - 1]);
            }
        }
        lemma_swapped_is_permutation(earlier, n, hi - 1, p);
    }
}

/// The child of `base` and `donor` for the segment from `lo` up to, not
/// including, `hi`.
pub fn partially_mapped(base: &Vec<usize>, donor: &Vec<usize>, lo: usize, hi: usize) -> (child:
    Vec<usize>)
    requires
        is_permutation(base@, base.len() as nat),
        is_permutation(donor@, base.len() as nat),
        lo <= hi <= base.len(),
    ensures
        child@ == pmx(base@, donor@, lo as int, hi as int),
        is_permutation(child@, base.len() as nat),
        forall|i: int| lo <= i < hi ==> child[i] == donor[i],
{
    let n = base.len();
    let mut child: Vec<usize> = Vec::new();
    let mut place: Vec<usize> = Vec::new();
    let mut k: usize = 0;
    while k < n
        invariant
            k <= n,
            n == base.len(),
            child.len() == k,
            place.len() == k,
            forall|i: int| 0 <= i < k ==> child[i] == base[i],
        decreases n - k,
    {
        child.push(base[k]);
        place.push(0);
        k += 1;
    }
    assert(child@ =~= base@);
    k = 0;
    while k < n
        invariant
            k <= n,
            n == base.len(),
            place.len() == n,
            is_permutation(base@, n as nat),
            forall|i: int| 0 <= i < k ==> place[base[i] as int] == i,
        decreases n - k,
    {
        place.set(base[k], k);
        k += 1;
    }
    proof {
        lemma_permutation_covers(base@, n as nat);
        assert forall|c: usize| c < n implies (#[trigger] place[c as int]) < n && child[place[c as int] as int]
            == c by {
            assert(base@.contains(c));
            let i = choose|i: int| 0 <= i < base.len() && base[i] == c;
            assert(place[base[i] as int] == i);
        }
    }
    let mut i: usize = lo;
    while i < hi
        invariant
            lo <= i <= hi <= n,
            n == base.len(),
            child.len() == n,
            place.len() == n,
            is_permutation(base@, n as nat),
            is_permutation(donor@, n as nat),
            is_permutation(child@, n as nat),
            child@ == pmx(base@, donor@, lo as int, i as int),
            forall|c: usize|
                c < n ==> (#[trigger] place[c as int]) < n && child[place[c as int] as int] == c,
        decreases hi - i,
    {
        let x = donor[i];
        let p = place[x];
        let y = child[i];
        proof {
            lemma_position_of(child@, n as nat, p as int);
            lemma_swapped_is_permutation(child@, n as nat, i as int, p as int);
        }
        let ghost earlier = child@;
        child.set(i, x);
        child.set(p, y);
        place.set(x, i);
        place.set(y, p);
        proof {
            assert(child@ =~= swapped(earlier, i as int, p as int));
            assert forall|c: usize| c < n implies (#[trigger] place[c as int]) < n && child[place[c as int] as int]
                == c by {
                if c != x && c != y {
                    let q = place[c as int] as int;
                    assert(earlier[q] == c);
                    assert(q != i as int && q != p as int);
                }
            }
        }
        i += 1;
    }
    proof {
        lemma_pmx(base@, donor@, n as nat, lo as int, hi as int);
    }
    child
}

} // verus!
