//! The order of a population by fitness: fitter first, and of two equally
//! fit individuals the one that stands earlier.

use vstd::prelude::*;
use vstd::seq_lib::*;
use vstd::set_lib::*;

verus! {

/// In the order by fitness, position `i` comes before position `j`.
pub open spec fn ranks_before(fitness: Seq<u64>, i: int, j: int) -> bool {
    fitness[i] > fitness[j] || (fitness[i] == fitness[j] && i < j)
}

/// `ranking` lists positions of `fitness`, each before the next in the order
/// by fitness, and every position that it leaves out comes after all of
/// them: these are the first `ranking.len()` positions of that order.
pub open spec fn is_top_ranking(fitness: Seq<u64>, ranking: Seq<usize>) -> bool {
    &&& forall|t: int| 0 <= t < ranking.len() ==> (#[trigger] ranking[t]) < fitness.len()
    &&& forall|s: int, t: int|
        #![trigger ranking[s], ranking[t]]
        0 <= s < t < ranking.len() ==> ranks_before(fitness, ranking[s] as int, ranking[t] as int)
    &&& forall|t: int, j: usize|
        #![trigger ranking[t], ranking.contains(j)]
        0 <= t < ranking.len() && j < fitness.len() && !ranking.contains(j) ==> ranks_before(
            fitness,
            ranking[t] as int,
            j as int,
        )
}

/// The first `count` positions of the order by fitness.
pub open spec fn elite_ranking(fitness: Seq<u64>, count: nat) -> Seq<usize> {
    choose|ranking: Seq<usize>| ranking.len() == count && is_top_ranking(fitness, ranking)
}

/// `m` is the greatest value of `fitness`.
pub open spec fn is_maximum(fitness: Seq<u64>, m: u64) -> bool {
    &&& exists|i: int| 0 <= i < fitness.len() && fitness[i] == m
    &&& forall|i: int| 0 <= i < fitness.len() ==> fitness[i] <= m
}

/// Position `j` holds the greatest value of `fitness`, and no later
/// position does.
pub open spec fn is_last_maximum(fitness: Seq<u64>, j: int) -> bool {
    &&& 0 <= j < fitness.len()
    &&& forall|i: int| 0 <= i < fitness.len() ==> fitness[i] <= fitness[j]
    &&& forall|i: int| j < i < fitness.len() ==> fitness[i] < fitness[j]
}

/// A sequence that holds every one of `n` different values has at least `n`
/// entries.
pub proof fn lemma_covering_sequence_is_long(s: Seq<usize>, n: nat)
    requires
        forall|c: usize| c < n ==> s.contains(c),
        n <= usize::MAX + 1,
    ensures
        s.len() >= n,
{
    let t = Seq::new(s.len(), |i: int| s[i] as int);
    let r = set_int_range(0, n as int);
    lemma_int_range(0, n as int);
    seq_to_set_is_finite(t);
    assert forall|x: int| r.contains(x) implies t.to_set().contains(x) by {
        let c = x as usize;
        assert(s.contains(c));
        let i = choose|i: int| 0 <= i < s.len() && s[i] == c;
        assert(t[i] == x);
    }
    lemma_len_subset(r, t.to_set());
    t.lemma_cardinality_of_set();
}

proof fn lemma_ranking_agrees(fitness: Seq<u64>, a: Seq<usize>, b: Seq<usize>, k: nat)
    requires
        is_top_ranking(fitness, a),
        is_top_ranking(fitness, b),
        a.len() == b.len(),
        k <= a.len(),
    ensures
        forall|t: int| 0 <= t < k ==> a[t] == b[t],
    decreases k,
{
    if k > 0 {
        lemma_ranking_agrees(fitness, a, b, (k - 1) as nat);
        let t = k - 1;
        lemma_not_after(fitness, a, b, t);
        lemma_not_after(fitness, b, a, t);
    }
}

/// Where two rankings agree below position `t`, the entry of the second at
/// `t` does not come before that of the first.
proof fn lemma_not_after(fitness: Seq<u64>, a: Seq<usize>, b: Seq<usize>, t: int)
    requires
        is_top_ranking(fitness, a),
        is_top_ranking(fitness, b),
        a.len() == b.len(),
        0 <= t < a.len(),
        forall|s: int| 0 <= s < t ==> a[s] == b[s],
    ensures
        a[t] == b[t] || ranks_before(fitness, a[t] as int, b[t] as int),
{
    let x = b[t];
    if a.contains(x) {
        let s = choose|s: int| 0 <= s < a.len() && a[s] == x;
        if s < t {
            assert(b[s] == a[s]);
            assert(ranks_before(fitness, b[s] as int, b[t] as int));
        } else if s > t {
            assert(ranks_before(fitness, a[t] as int, a[s] as int));
        }
    } else {
        assert(ranks_before(fitness, a[t] as int, x as int));
    }
}

/// The order by fitness has one beginning of each length.
pub proof fn lemma_top_ranking_unique(fitness: Seq<u64>, a: Seq<usize>, b: Seq<usize>)
    requires
        is_top_ranking(fitness, a),
        is_top_ranking(fitness, b),
        a.len() == b.len(),
    ensures
        a == b,
{
    lemma_ranking_agrees(fitness, a, b, a.len());
    assert(a =~= b);
}

/// Whatever meets `is_top_ranking` is the elite ranking of its length.
pub proof fn lemma_elite_ranking_is(fitness: Seq<u64>, ranking: Seq<usize>)
    requires
        is_top_ranking(fitness, ranking),
    ensures
        elite_ranking(fitness, ranking.len()) == ranking,
{
    let e = elite_ranking(fitness, ranking.len());
    lemma_top_ranking_unique(fitness, e, ranking);
}

/// Every sequence has a ranking of each length up to its own.
pub proof fn lemma_elite_ranking_exists(fitness: Seq<u64>, count: nat)
    requires
        count <= fitness.len() <= usize::MAX,
    ensures
        elite_ranking(fitness, count).len() == count,
        is_top_ranking(fitness, elite_ranking(fitness, count)),
    decreases count,
{
    if count == 0 {
        lemma_elite_ranking_is(fitness, Seq::<usize>::empty());
    } else {
        lemma_elite_ranking_exists(fitness, (count - 1) as nat);
        let shorter = elite_ranking(fitness, (count - 1) as nat);
        if forall|c: usize| c < fitness.len() ==> shorter.contains(c) {
            lemma_covering_sequence_is_long(shorter, fitness.len());
        }
        let start = choose|c: usize| c < fitness.len() && !shorter.contains(c);
        let next = lemma_first_outside(fitness, shorter, start, fitness.len());
        let longer = shorter.push(next);
        assert forall|s: int, t: int| 0 <= s < t < longer.len() implies ranks_before(
            fitness,
            longer[s] as int,
            longer[t] as int,
        ) by {
            if t == shorter.len() {
                assert(longer[s] == shorter[s]);
            } else {
                assert(longer[s] == shorter[s] && longer[t] == shorter[t]);
            }
        }
        assert forall|t: int, j: usize|
            0 <= t < longer.len() && j < fitness.len() && !longer.contains(j) implies ranks_before(
            fitness,
            longer[t] as int,
            j as int,
        ) by {
            assert(longer[shorter.len() as int] == next);
            if shorter.contains(j) {
                let s = choose|s: int| 0 <= s < shorter.len() && shorter[s] == j;
                assert(longer[s] == j);
            }
            if t < shorter.len() {
                assert(longer[t] == shorter[t]);
            }
        }
        lemma_elite_ranking_is(fitness, longer);
    }
}

/// Among the positions below `bound` that `ranking` leaves out, of which
/// `witness` is one, there is one that comes before all the others.
proof fn lemma_first_outside(fitness: Seq<u64>, ranking: Seq<usize>, witness: usize, bound: nat) -> (first:
    usize)
    requires
        witness < bound <= fitness.len() <= usize::MAX,
        !ranking.contains(witness),
    ensures
        first < bound,
        !ranking.contains(first),
        forall|j: usize|
            j < bound && !ranking.contains(j) && j != first ==> ranks_before(
                fitness,
                first as int,
                j as int,
            ),
    decreases bound,
{
    if bound - 1 == witness as nat {
        if exists|c: usize| c < witness && !ranking.contains(c) {
            let c = choose|c: usize| c < witness && !ranking.contains(c);
            let earlier = lemma_first_outside(fitness, ranking, c, (bound - 1) as nat);
            if fitness[witness as int] > fitness[earlier as int] {
                witness
            } else {
                earlier
            }
        } else {
            witness
        }
    } else {
        let earlier = lemma_first_outside(fitness, ranking, witness, (bound - 1) as nat);
        let last = (bound - 1) as usize;
        if !ranking.contains(last) && fitness[last as int] > fitness[earlier as int] {
            last
        } else {
            earlier
        }
    }
}

/// A ranking names no position twice.
pub proof fn lemma_top_ranking_distinct(fitness: Seq<u64>, ranking: Seq<usize>)
    requires
        is_top_ranking(fitness, ranking),
    ensures
        ranking.no_duplicates(),
{
    assert forall|s: int, t: int|
        0 <= s < ranking.len() && 0 <= t < ranking.len() && s != t implies ranking[s]
        != ranking[t] by {
        if s < t {
            assert(ranks_before(fitness, ranking[s] as int, ranking[t] as int));
        } else {
            assert(ranks_before(fitness, ranking[t] as int, ranking[s] as int));
        }
    }
}

/// The positions of the `count` fittest entries, fittest first; of equally
/// fit entries the earlier comes first.
pub fn fittest_indices(fitness: &Vec<u64>, count: usize) -> (ranking: Vec<usize>)
    requires
        count <= fitness.len(),
    ensures
        ranking.len() == count,
        is_top_ranking(fitness@, ranking@),
        ranking@ == elite_ranking(fitness@, count as nat),
{
    let n = fitness.len();
    let mut taken: Vec<bool> = Vec::new();
    let mut k: usize = 0;
    while k < n
        invariant
            k <= n,
            taken.len() == k,
            forall|c: int| 0 <= c < k ==> !taken[c],
        decreases n - k,
    {
        taken.push(false);
        k += 1;
    }
    let mut ranking: Vec<usize> = Vec::new();
    while ranking.len() < count
        invariant
            n == fitness.len(),
            count <= n,
            ranking.len() <= count,
            taken.len() == n,
            forall|j: usize| j < n ==> (taken[j as int] <==> ranking@.contains(j)),
            is_top_ranking(fitness@, ranking@),
        decreases count - ranking.len(),
    {
        let mut best: usize = n;
        let mut j: usize = 0;
        while j < n
            invariant
                n == fitness.len(),
                taken.len() == n,
                j <= n,
                best <= n,
                best == n ==> forall|i: int| 0 <= i < j ==> taken[i],
                best < n ==> best < j && !taken[best as int],
                best < n ==> forall|i: int|
                    0 <= i < j && !taken[i] && i != best ==> ranks_before(
                        fitness@,
                        best as int,
                        i,
                    ),
            decreases n - j,
        {
            if !taken[j] && (best == n || fitness[j] > fitness[best]) {
                best = j;
            }
            j += 1;
        }
        proof {
            if best == n {
                assert forall|c: usize| c < n implies ranking@.contains(c) by {
                    assert(taken[c as int]);
                }
                lemma_covering_sequence_is_long(ranking@, n as nat);
            }
        }
        let ghost before = ranking@;
        ranking.push(best);
        taken.set(best, true);
        proof {
            let after = ranking@;
            assert(after == before.push(best));
            assert forall|j: usize| j < n implies (taken[j as int] <==> after.contains(j)) by {
                if j == best {
                    assert(after[before.len() as int] == best);
                } else if before.contains(j) {
                    let t = choose|t: int| 0 <= t < before.len() && before[t] == j;
                    assert(after[t] == j);
                } else if after.contains(j) {
                    let t = choose|t: int| 0 <= t < after.len() && after[t] == j;
                    assert(before[t] == j);
                }
            }
            assert forall|s: int, t: int| 0 <= s < t < after.len() implies ranks_before(
                fitness@,
                after[s] as int,
                after[t] as int,
            ) by {
                if t == before.len() {
                    assert(!before.contains(best));
                    assert(after[s] == before[s]);
                    assert(ranks_before(fitness@, before[s] as int, best as int));
                } else {
                    assert(after[s] == before[s] && after[t] == before[t]);
                }
            }
            assert forall|t: int, j: usize|
                0 <= t < after.len() && j < fitness@.len() && !after.contains(
                    j,
                ) implies ranks_before(fitness@, after[t] as int, j as int) by {
                assert(!taken[j as int]);
                assert(j != best);
                if t == before.len() {
                } else {
                    assert(after[t] == before[t]);
                    assert(!before.contains(j));
                }
            }
        }
    }
    proof {
        lemma_elite_ranking_is(fitness@, ranking@);
    }
    ranking
}

/// The positions below `n` that `chosen` does not name, in ascending order.
pub fn remaining_indices(n: usize, chosen: &Vec<usize>) -> (rest: Vec<usize>)
    requires
        forall|t: int| 0 <= t < chosen.len() ==> (#[trigger] chosen[t]) < n,
    ensures
        forall|j: usize| rest@.contains(j) <==> j < n && !chosen@.contains(j),
        forall|s: int, t: int| 0 <= s < t < rest.len() ==> rest[s] < rest[t],
        chosen.len() < n ==> rest.len() > 0,
{
    let mut named: Vec<bool> = Vec::new();
    let mut k: usize = 0;
    while k < n
        invariant
            k <= n,
            named.len() == k,
            forall|c: int| 0 <= c < k ==> !named[c],
        decreases n - k,
    {
        named.push(false);
        k += 1;
    }
    let mut t: usize = 0;
    while t < chosen.len()
        invariant
            t <= chosen.len(),
            named.len() == n,
            forall|t: int| 0 <= t < chosen.len() ==> (#[trigger] chosen[t]) < n,
            forall|c: int|
                0 <= c < n ==> (named[c] <==> exists|s: int| 0 <= s < t && chosen[s] == c),
        decreases chosen.len() - t,
    {
        let c = chosen[t];
        named.set(c, true);
        proof {
            assert forall|d: int| 0 <= d < n implies (named[d] <==> exists|s: int|
                0 <= s < t + 1 && chosen[s] == d) by {
                if d == c {
                    assert(chosen[t as int] == d);
                } else if named[d] {
                    let s = choose|s: int| 0 <= s < t && chosen[s] == d;
                    assert(0 <= s < t + 1 && chosen[s] == d);
                }
            }
        }
        t += 1;
    }
    assert forall|c: usize| c < n implies (named[c as int] <==> chosen@.contains(c)) by {
        if named[c as int] {
            let s = choose|s: int| 0 <= s < chosen.len() && chosen[s] == c as int;
            assert(chosen@[s] == c);
        }
    }
    let mut rest: Vec<usize> = Vec::new();
    let mut j: usize = 0;
    while j < n
        invariant
            j <= n,
            named.len() == n,
            forall|c: usize| c < n ==> (named[c as int] <==> chosen@.contains(c)),
            forall|c: usize| rest@.contains(c) <==> c < j && !chosen@.contains(c),
            forall|s: int| 0 <= s < rest.len() ==> (#[trigger] rest[s]) < j,
            forall|s: int, t: int| 0 <= s < t < rest.len() ==> rest[s] < rest[t],
        decreases n - j,
    {
        if !named[j] {
            let ghost before = rest@;
            rest.push(j);
            proof {
                let after = rest@;
                assert forall|c: usize| after.contains(c) <==> c < j + 1 && !chosen@.contains(
                    c,
                ) by {
                    if c == j {
                        assert(after[before.len() as int] == c);
                    } else if before.contains(c) {
                        let s = choose|s: int| 0 <= s < before.len() && before[s] == c;
                        assert(after[s] == c);
                    } else if after.contains(c) {
                        let s = choose|s: int| 0 <= s < after.len() && after[s] == c;
                        assert(before[s] == c);
                    }
                }
            }
        }
        j += 1;
    }
    proof {
        if chosen.len() < n && rest.len() == 0 {
            assert forall|c: usize| c < n implies chosen@.contains(c) by {
                assert(!rest@.contains(c));
            }
            lemma_covering_sequence_is_long(chosen@, n as nat);
        }
    }
    rest
}

/// The position of the fittest entry, the last of them where several are
/// equally fit.
pub fn fittest_index(fitness: &Vec<u64>) -> (best: usize)
    requires
        fitness.len() > 0,
    ensures
        is_last_maximum(fitness@, best as int),
        is_maximum(fitness@, fitness[best as int]),
{
    let mut best: usize = 0;
    let mut i: usize = 1;
    while i < fitness.len()
        invariant
            1 <= i <= fitness.len(),
            best < i,
            forall|k: int| 0 <= k < i ==> fitness[k] <= fitness[best as int],
            forall|k: int| best < k < i ==> fitness[k] < fitness[best as int],
        decreases fitness.len() - i,
    {
        if fitness[i] >= fitness[best] {
            best = i;
        }
        i += 1;
    }
    best
}

} // verus!
