//! Selection of parents from a population.
//!
//! Every selection returns the elite first: the fittest individuals, which
//! the next generation keeps. The other parents are drawn, with
//! replacement, from the individuals outside the elite, so that no member
//! of the elite is counted twice.

use crate::arithmetic::lemma_sum_covers_term;
use crate::candidate::Candidate;
use crate::fraction::Fraction;
use crate::permutation::identity;
use crate::random::{random_below, random_chance};
use crate::ranking::{
    elite_ranking, fittest_indices, is_top_ranking, lemma_elite_ranking_is, ranks_before,
    remaining_indices,
};
use crate::roulette::{build_wheel, is_rising, is_wheel, lemma_bucket_is_proportional, locate};
use rand::rngs::StdRng;
use vstd::prelude::*;

verus! {

/// How the parents outside the elite are drawn.
#[derive(Clone, Copy, Debug)]
pub enum SelectionMethod {
    /// Tournaments among the given number of entrants.
    Tournament(usize),
    /// A roulette wheel on which each individual has a share in proportion
    /// to its fitness.
    RouletteWheel,
}

/// The cached fitness of each individual of a population.
pub open spec fn fitness_of(population: Seq<Candidate>) -> Seq<u64> {
    Seq::new(population.len(), |i: int| population[i]@.fitness)
}

/// `candidate` equals an individual of `population` that `elite` does not
/// name.
pub open spec fn is_outsider(
    population: Seq<Candidate>,
    elite: Seq<usize>,
    candidate: Candidate,
) -> bool {
    exists|j: usize|
        #![trigger elite.contains(j)]
        j < population.len() && !elite.contains(j) && candidate@ == population[j as int]@
}

/// `value` is the fitness at a position that `elite` does not name.
pub open spec fn is_outside_value(fitness: Seq<u64>, elite: Seq<usize>, value: u64) -> bool {
    exists|j: usize|
        #![trigger elite.contains(j)]
        j < fitness.len() && !elite.contains(j) && value == fitness[j as int]
}

/// `parents` is a selection of `target_count` parents from `population`:
/// first the elite, fittest first, then individuals from outside the elite.
pub open spec fn is_selection(
    parents: Seq<Candidate>,
    population: Seq<Candidate>,
    target_count: nat,
    elitism_count: nat,
) -> bool {
    let elite = elite_ranking(fitness_of(population), elitism_count);
    &&& parents.len() == target_count
    &&& forall|i: int|
        0 <= i < elitism_count && i < target_count ==> (#[trigger] parents[i])@
            == population[elite[i] as int]@
    &&& forall|i: int|
        elitism_count <= i < target_count ==> is_outsider(population, elite, #[trigger] parents[i])
}

/// Position `b` of `entrants` holds the strongest entrant: none is fitter,
/// and those before it are less fit.
pub open spec fn is_strongest(fitness: Seq<u64>, entrants: Seq<usize>, b: int) -> bool {
    &&& 0 <= b < entrants.len()
    &&& forall|t: int|
        0 <= t < entrants.len() ==> fitness[(#[trigger] entrants[t]) as int]
            <= fitness[entrants[b] as int]
    &&& forall|t: int|
        0 <= t < b ==> fitness[(#[trigger] entrants[t]) as int] < fitness[entrants[b] as int]
}

/// The position, among `count` entrants, of the winner of a tournament: the
/// strongest entrant if `take_fittest` holds or it is alone, else the
/// entrant at position `other` of those that remain when the strongest is
/// left out.
pub open spec fn winning_position(strongest: int, count: nat, take_fittest: bool, other: int) -> int {
    if take_fittest || count == 1 {
        strongest
    } else if other < strongest {
        other
    } else {
        other + 1
    }
}

/// A tournament has one strongest entrant.
pub proof fn lemma_strongest_unique(fitness: Seq<u64>, entrants: Seq<usize>, a: int, b: int)
    requires
        is_strongest(fitness, entrants, a),
        is_strongest(fitness, entrants, b),
    ensures
        a == b,
{
    if a < b {
        assert(fitness[entrants[a] as int] < fitness[entrants[b] as int]);
    } else if b < a {
        assert(fitness[entrants[b] as int] < fitness[entrants[a] as int]);
    }
}

/// Where the elite stands first among the parents and every other parent
/// comes from outside the elite, the elite of the parents is the elite of
/// the population, in the same order: the first parents.
pub proof fn lemma_elite_stays_first(fitness: Seq<u64>, elite: Seq<usize>, parents: Seq<u64>)
    requires
        is_top_ranking(fitness, elite),
        elite.len() <= parents.len(),
        elite.len() <= usize::MAX,
        forall|i: int| 0 <= i < elite.len() ==> parents[i] == fitness[elite[i] as int],
        forall|i: int|
            elite.len() <= i < parents.len() ==> is_outside_value(
                fitness,
                elite,
                #[trigger] parents[i],
            ),
    ensures
        is_top_ranking(parents, identity(elite.len())),
        elite_ranking(parents, elite.len()) == identity(elite.len()),
{
    let first = identity(elite.len());
    assert forall|s: int, t: int| 0 <= s < t < first.len() implies ranks_before(
        parents,
        first[s] as int,
        first[t] as int,
    ) by {
        assert(ranks_before(fitness, elite[s] as int, elite[t] as int));
    }
    assert forall|t: int, j: usize|
        0 <= t < first.len() && j < parents.len() && !first.contains(j) implies ranks_before(
        parents,
        first[t] as int,
        j as int,
    ) by {
        if j < elite.len() {
            assert(first[j as int] == j);
        }
        assert(is_outside_value(fitness, elite, parents[j as int]));
        let src = choose|src: usize|
            #![trigger elite.contains(src)]
            src < fitness.len() && !elite.contains(src) && parents[j as int] == fitness[src as int];
        assert(ranks_before(fitness, elite[t] as int, src as int));
    }
    lemma_elite_ranking_is(parents, first);
}

/// The cached fitness of each individual of `population`.
pub fn fitness_values(population: &Vec<Candidate>) -> (fitness: Vec<u64>)
    ensures
        fitness@ == fitness_of(population@),
{
    let mut fitness: Vec<u64> = Vec::new();
    let mut i: usize = 0;
    while i < population.len()
        invariant
            i <= population.len(),
            fitness.len() == i,
            forall|k: int| 0 <= k < i ==> fitness[k] == population[k]@.fitness,
        decreases population.len() - i,
    {
        fitness.push(population[i].fitness());
        i += 1;
    }
    assert(fitness@ =~= fitness_of(population@));
    fitness
}

/// The winner of one tournament: the strongest of the entrants if
/// `take_fittest` holds or there is one entrant only, else the entrant at
/// position `other` among the rest.
pub fn tournament_winner(
    fitness: &Vec<u64>,
    entrants: &Vec<usize>,
    take_fittest: bool,
    other: usize,
) -> (winner: usize)
    requires
        entrants.len() > 0,
        forall|t: int| 0 <= t < entrants.len() ==> (#[trigger] entrants[t]) < fitness.len(),
        !take_fittest && entrants.len() > 1 ==> other < entrants.len() - 1,
    ensures
        exists|b: int|
            is_strongest(fitness@, entrants@, b) && winner == entrants[winning_position(
                b,
                entrants.len() as nat,
                take_fittest,
                other as int,
            )],
        entrants@.contains(winner),
{
    let mut strongest: usize = 0;
    let mut t: usize = 1;
    while t < entrants.len()
        invariant
            1 <= t <= entrants.len(),
            strongest < t,
            forall|s: int| 0 <= s < entrants.len() ==> (#[trigger] entrants[s]) < fitness.len(),
            forall|s: int|
                0 <= s < t ==> fitness[(#[trigger] entrants[s]) as int]
                    <= fitness[entrants[strongest as int] as int],
            forall|s: int|
                0 <= s < strongest ==> fitness[(#[trigger] entrants[s]) as int]
                    < fitness[entrants[strongest as int] as int],
        decreases entrants.len() - t,
    {
        if fitness[entrants[t]] > fitness[entrants[strongest]] {
            strongest = t;
        }
        t += 1;
    }
    let position = if take_fittest || entrants.len() == 1 {
        strongest
    } else if other < strongest {
        other
    } else {
        other + 1
    };
    assert(is_strongest(fitness@, entrants@, strongest as int));
    assert(entrants@[position as int] == entrants[position as int]);
    entrants[position]
}

/// Tournament selection.
///
/// The parents are the `elitism_count` fittest individuals, fittest first,
/// and after them the winners of as many tournaments as it takes to make
/// `target_count`. For a tournament `k` entrants are drawn, with
/// replacement, from the individuals outside the elite; with probability
/// `p` the strongest of them wins, else one of the others, drawn uniformly.
pub fn tournament_selection(
    k: usize,
    target_count: usize,
    population: &Vec<Candidate>,
    p: Fraction,
    elitism_count: usize,
    rng: &mut StdRng,
) -> (parents: Vec<Candidate>)
    requires
        k > 0,
        p.valid(),
        elitism_count <= target_count,
        elitism_count <= population.len(),
        elitism_count < target_count ==> elitism_count < population.len(),
    ensures
        is_selection(parents@, population@, target_count as nat, elitism_count as nat),
{
    let fitness = fitness_values(population);
    let elite = fittest_indices(&fitness, elitism_count);
    let rest = remaining_indices(population.len(), &elite);
    let mut parents = copy_elite(population, &elite);
    while parents.len() < target_count
        invariant
            k > 0,
            p.valid(),
            elitism_count <= parents.len() <= target_count,
            fitness@ == fitness_of(population@),
            elite@ == elite_ranking(fitness@, elitism_count as nat),
            elitism_count < target_count ==> rest.len() > 0,
            forall|j: usize| rest@.contains(j) <==> j < population.len() && !elite@.contains(j),
            is_selection(parents@, population@, parents.len() as nat, elitism_count as nat),
        decreases target_count - parents.len(),
    {
        let mut entrants: Vec<usize> = Vec::new();
        while entrants.len() < k
            invariant
                entrants.len() <= k,
                rest.len() > 0,
                forall|t: int| 0 <= t < entrants.len() ==> rest@.contains(#[trigger] entrants[t]),
            decreases k - entrants.len(),
        {
            let draw = random_below(rng, rest.len() as u128) as usize;
            assert(rest@.contains(rest@[draw as int]));
            entrants.push(rest[draw]);
        }
        let take_fittest = random_chance(rng, p.numerator, p.denominator);
        let other = if !take_fittest && k > 1 {
            random_below(rng, (k - 1) as u128) as usize
        } else {
            0
        };
        assert forall|t: int| 0 <= t < entrants.len() implies (#[trigger] entrants[t])
            < fitness.len() by {
            assert(rest@.contains(entrants[t]));
        }
        let winner = tournament_winner(&fitness, &entrants, take_fittest, other);
        proof {
            let t = choose|t: int| 0 <= t < entrants.len() && entrants[t] == winner;
            assert(rest@.contains(entrants[t]));
        }
        let ghost before = parents@;
        parents.push(population[winner].clone());
        proof {
            lemma_selection_grows(before, parents@, population@, elitism_count as nat, winner);
        }
    }
    parents
}

/// Roulette wheel selection.
///
/// The parents are the `elitism_count` fittest individuals, fittest first,
/// and after them as many individuals as it takes to make `target_count`,
/// each drawn from the individuals outside the elite with a chance in
/// proportion to its fitness.
///
/// Where a parent is to be drawn, one of the individuals outside the elite
/// must have positive fitness: else the wheel has no ticket.
pub fn roulette_wheel_selection(
    target_count: usize,
    population: &Vec<Candidate>,
    elitism_count: usize,
    rng: &mut StdRng,
) -> (parents: Vec<Candidate>)
    requires
        elitism_count <= target_count,
        elitism_count <= population.len(),
        elitism_count < target_count ==> exists|j: usize|
            j < population.len() && !elite_ranking(
                fitness_of(population@),
                elitism_count as nat,
            ).contains(j) && population[j as int]@.fitness > 0,
    ensures
        is_selection(parents@, population@, target_count as nat, elitism_count as nat),
        forall|i: int|
            elitism_count <= i < target_count ==> (#[trigger] parents[i])@.fitness > 0,
{
    let fitness = fitness_values(population);
    let elite = fittest_indices(&fitness, elitism_count);
    let rest = remaining_indices(population.len(), &elite);
    let mut parents = copy_elite(population, &elite);
    if elitism_count == target_count {
        return parents;
    }
    let mut weights: Vec<u64> = Vec::new();
    let mut s: usize = 0;
    while s < rest.len()
        invariant
            s <= rest.len(),
            weights.len() == s,
            fitness@ == fitness_of(population@),
            forall|j: usize| rest@.contains(j) <==> j < population.len() && !elite@.contains(j),
            forall|t: int| 0 <= t < s ==> weights[t] == fitness[rest[t] as int],
        decreases rest.len() - s,
    {
        assert(rest@.contains(rest@[s as int]));
        weights.push(fitness[rest[s]]);
        s += 1;
    }
    let wheel = build_wheel(&weights);
    proof {
        let j = choose|j: usize|
            j < population.len() && !elite@.contains(j) && population[j as int]@.fitness > 0;
        assert(rest@.contains(j));
        let t = choose|t: int| 0 <= t < rest.len() && rest[t] == j;
        assert(weights[t] == fitness[j as int]);
        lemma_sum_covers_term(weights@, t);
    }
    let total = wheel[wheel.len() - 1];
    while parents.len() < target_count
        invariant
            elitism_count <= parents.len() <= target_count,
            fitness@ == fitness_of(population@),
            elite@ == elite_ranking(fitness@, elitism_count as nat),
            forall|j: usize| rest@.contains(j) <==> j < population.len() && !elite@.contains(j),
            wheel.len() == rest.len(),
            wheel.len() > 0,
            is_wheel(wheel@, weights@),
            is_rising(wheel@),
            forall|t: int| 0 <= t < rest.len() ==> weights[t] == fitness[rest[t] as int],
            total == wheel[wheel.len() - 1],
            total > 0,
            is_selection(parents@, population@, parents.len() as nat, elitism_count as nat),
            forall|i: int|
                elitism_count <= i < parents.len() ==> (#[trigger] parents[i])@.fitness > 0,
        decreases target_count - parents.len(),
    {
        let ticket = random_below(rng, total);
        let bucket = locate(&wheel, ticket);
        assert(rest@.contains(rest@[bucket as int]));
        let chosen = rest[bucket];
        let ghost before = parents@;
        parents.push(population[chosen].clone());
        proof {
            lemma_bucket_is_proportional(wheel@, weights@, ticket, bucket as int);
            lemma_selection_grows(before, parents@, population@, elitism_count as nat, chosen);
            assert forall|i: int| elitism_count <= i < parents.len() implies (
            #[trigger] parents[i])@.fitness > 0 by {
                if i < before.len() {
                    assert(parents[i] == before[i]);
                }
            }
        }
    }
    parents
}

/// Copies of the individuals that `elite` names, in its order.
fn copy_elite(population: &Vec<Candidate>, elite: &Vec<usize>) -> (parents: Vec<Candidate>)
    requires
        elite@ == elite_ranking(fitness_of(population@), elite.len() as nat),
        is_top_ranking(fitness_of(population@), elite@),
    ensures
        is_selection(parents@, population@, elite.len() as nat, elite.len() as nat),
{
    let mut parents: Vec<Candidate> = Vec::new();
    let mut i: usize = 0;
    while i < elite.len()
        invariant
            i <= elite.len(),
            parents.len() == i,
            is_top_ranking(fitness_of(population@), elite@),
            forall|t: int| 0 <= t < i ==> (#[trigger] parents[t])@ == population[elite[t] as int]@,
        decreases elite.len() - i,
    {
        parents.push(population[elite[i]].clone());
        i += 1;
    }
    parents
}

proof fn lemma_selection_grows(
    before: Seq<Candidate>,
    after: Seq<Candidate>,
    population: Seq<Candidate>,
    elitism_count: nat,
    source: usize,
)
    requires
        is_selection(before, population, before.len(), elitism_count),
        elitism_count <= before.len(),
        after.len() == before.len() + 1,
        forall|i: int| 0 <= i < before.len() ==> after[i] == before[i],
        source < population.len(),
        !elite_ranking(fitness_of(population), elitism_count).contains(source),
        after[before.len() as int]@ == population[source as int]@,
    ensures
        is_selection(after, population, after.len(), elitism_count),
{
    let elite = elite_ranking(fitness_of(population), elitism_count);
    assert forall|i: int| 0 <= i < elitism_count && i < after.len() implies (#[trigger] after[i])@
        == population[elite[i] as int]@ by {
        assert(after[i] == before[i]);
    }
    assert forall|i: int| elitism_count <= i < after.len() implies is_outsider(
        population,
        elite,
        #[trigger] after[i],
    ) by {
        if i < before.len() {
            assert(after[i] == before[i]);
        } else {
            assert(!elite.contains(source));
        }
    }
}

} // verus!
