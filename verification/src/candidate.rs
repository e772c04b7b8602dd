//! Candidate tours: a genome, which is an order of visiting the cities, and
//! the fitness that was last computed for it.

use crate::crossover::{is_crossover, partially_mapped, pmx};
use crate::fraction::Fraction;
use crate::permutation::{
    after_swaps, check_permutation, identity, is_permutation, lemma_after_swaps_is_rearrangement,
    lemma_after_swaps_of_longer_plan, lemma_identity_is_permutation,
    lemma_rearrangement_is_permutation, swapped,
};
use crate::random::{random_below, random_chance, shuffle};
use crate::tour::{
    cities_spread, fitness_from_length, lemma_tour_positive, measure_tour, tour_fitness,
    tour_length,
};
use rand::rngs::StdRng;
use vstd::prelude::*;

verus! {

/// What a candidate is to the contracts: its genome and its cached fitness.
pub struct CandidateView {
    pub genome: Seq<usize>,
    pub fitness: u64,
}

/// One individual of the population.
///
/// The fitness is a cache. `calcualte_fitness` fills it; `mutate` and a
/// write to `chromozones` leave it as it was, so that it is stale until the
/// next `calcualte_fitness`.
#[derive(Debug)]
pub struct Candidate {
    pub chromozones: Vec<usize>,
    fitness: u64,
}

impl View for Candidate {
    type V = CandidateView;

    closed spec fn view(&self) -> CandidateView {
        CandidateView { genome: self.chromozones@, fitness: self.fitness }
    }
}

impl Clone for Candidate {
    fn clone(&self) -> (copy: Self)
        ensures
            copy@ == self@,
    {
        let mut genome: Vec<usize> = Vec::new();
        let mut k: usize = 0;
        while k < self.chromozones.len()
            invariant
                k <= self.chromozones.len(),
                genome.len() == k,
                forall|i: int| 0 <= i < k ==> genome[i] == self.chromozones[i],
            decreases self.chromozones.len() - k,
        {
            genome.push(self.chromozones[k]);
            k += 1;
        }
        assert(genome@ =~= self.chromozones@);
        Candidate { chromozones: genome, fitness: self.fitness }
    }
}

impl Candidate {
    /// The genome visits each of the cities once.
    pub open spec fn is_tour_of(&self, cities: Seq<(u32, u32)>) -> bool {
        is_permutation(self@.genome, cities.len())
    }

    /// The genome visits each of the cities once, and the cached fitness is
    /// that of its tour.
    pub open spec fn well_formed(&self, cities: Seq<(u32, u32)>) -> bool {
        &&& self.is_tour_of(cities)
        &&& tour_length(cities, self@.genome) > 0
        &&& self@.fitness == tour_fitness(cities, self@.genome)
    }

    /// A candidate whose genome is a random order of all the cities, with
    /// its fitness.
    ///
    /// Two of the cities must lie apart: else every tour has length zero and
    /// no fitness.
    pub fn new(cities: &Vec<(u32, u32)>, rng: &mut StdRng) -> (candidate: Self)
        requires
            cities_spread(cities@),
        ensures
            candidate.well_formed(cities@),
            candidate@.fitness > 0,
    {
        let n = cities.len();
        let mut chromozones: Vec<usize> = Vec::new();
        let mut k: usize = 0;
        while k < n
            invariant
                k <= n,
                chromozones.len() == k,
                forall|i: int| 0 <= i < k ==> chromozones[i] == i,
            decreases n - k,
        {
            chromozones.push(k);
            k += 1;
        }
        proof {
            assert(chromozones@ =~= identity(n as nat));
            lemma_identity_is_permutation(n as nat);
        }
        let ghost ordered = chromozones@;
        shuffle(&mut chromozones, rng);
        proof {
            lemma_rearrangement_is_permutation(ordered, chromozones@, n as nat);
        }
        let mut candidate = Candidate { chromozones, fitness: 0 };
        proof {
            lemma_tour_positive(cities@, candidate@.genome);
        }
        candidate.calcualte_fitness(cities);
        candidate
    }

    /// A candidate with the given genome, of which nothing is asked, and
    /// with fitness 0.
    pub fn with_genome(genome: Vec<usize>) -> (candidate: Self)
        ensures
            candidate@.genome == genome@,
            candidate@.fitness == 0,
    {
        Candidate { chromozones: genome, fitness: 0 }
    }

    /// A candidate without a genome, with fitness 0.
    pub fn empty() -> (candidate: Self)
        ensures
            candidate@.genome == Seq::<usize>::empty(),
            candidate@.fitness == 0,
    {
        Candidate { chromozones: Vec::new(), fitness: 0 }
    }

    /// The cached fitness, in millionths.
    pub fn fitness(&self) -> (f: u64)
        ensures
            f == self@.fitness,
    {
        self.fitness
    }

    /// Computes the fitness of the genome's tour, stores it and returns it.
    ///
    /// The genome must name cities only, and its tour must have positive
    /// length: a tour of length zero has no fitness.
    pub fn calcualte_fitness(&mut self, cities: &Vec<(u32, u32)>) -> (f: u64)
        requires
            old(self)@.genome.len() > 0,
            forall|i: int|
                0 <= i < old(self)@.genome.len() ==> (#[trigger] old(self)@.genome[i])
                    < cities.len(),
            tour_length(cities@, old(self)@.genome) > 0,
        ensures
            final(self)@.genome == old(self)@.genome,
            final(self)@.fitness == tour_fitness(cities@, old(self)@.genome),
            f == final(self)@.fitness,
            f > 0,
    {
        let f = self.tour_fitness(cities);
        self.fitness = f;
        f
    }

    /// The fitness of the genome's tour, computed afresh; the cache is
    /// neither read nor written.
    pub fn tour_fitness(&self, cities: &Vec<(u32, u32)>) -> (f: u64)
        requires
            self@.genome.len() > 0,
            forall|i: int|
                0 <= i < self@.genome.len() ==> (#[trigger] self@.genome[i]) < cities.len(),
            tour_length(cities@, self@.genome) > 0,
        ensures
            f == tour_fitness(cities@, self@.genome),
            f > 0,
    {
        let length = measure_tour(cities, &self.chromozones);
        fitness_from_length(length)
    }

    /// Tells whether the genome visits each of `city_count` cities once.
    pub fn is_valid(&self, city_count: usize) -> (ok: bool)
        ensures
            ok == is_permutation(self@.genome, city_count as nat),
    {
        check_permutation(&self.chromozones, city_count)
    }

    /// Exchanges the cities at positions `i` and `j` of the genome. The
    /// cached fitness stays as it was.
    pub fn swap_positions(&mut self, i: usize, j: usize)
        requires
            i < old(self)@.genome.len(),
            j < old(self)@.genome.len(),
        ensures
            final(self)@.genome == swapped(old(self)@.genome, i as int, j as int),
            final(self)@.fitness == old(self)@.fitness,
    {
        let a = self.chromozones[i];
        let b = self.chromozones[j];
        self.chromozones.set(i, b);
        self.chromozones.set(j, a);
    }

    /// Swap mutation: each position in turn is, with probability `rate`,
    /// exchanged with a position drawn at random. The cached fitness stays as
    /// it was.
    ///
    /// The genome afterwards is the genome before with the drawn plan
    /// carried out, position by position: see `is_swap_plan` for the plans
    /// that can be drawn. So, whatever is drawn, the genome holds the same
    /// cities afterwards, each as often as before; with the rate 0 it is
    /// unchanged.
    pub fn mutate(&mut self, rate: Fraction, rng: &mut StdRng)
        requires
            rate.valid(),
        ensures
            exists|plan: Seq<Option<usize>>|
                #![trigger is_swap_plan(plan, old(self)@.genome.len(), rate)]
                is_swap_plan(plan, old(self)@.genome.len(), rate) && final(self)@.genome
                    == after_swaps(old(self)@.genome, plan, old(self)@.genome.len()),
            final(self)@.genome.to_multiset() == old(self)@.genome.to_multiset(),
            final(self)@.genome.len() == old(self)@.genome.len(),
            forall|n: nat|
                is_permutation(old(self)@.genome, n) ==> is_permutation(final(self)@.genome, n),
            final(self)@.fitness == old(self)@.fitness,
            rate.numerator == 0 ==> final(self)@.genome == old(self)@.genome,
    {
        let n = self.chromozones.len();
        let ghost mut plan: Seq<Option<usize>> = Seq::empty();
        let mut i: usize = 0;
        while i < n
            invariant
                i <= n,
                n == self@.genome.len(),
                n == old(self)@.genome.len(),
                rate.valid(),
                plan.len() == i,
                forall|k: int| 0 <= k < i ==> (#[trigger] plan[k] matches Some(j) ==> j < n),
                rate.numerator == 0 ==> forall|k: int| 0 <= k < i ==> #[trigger] plan[k] is None,
                rate.numerator == rate.denominator ==> forall|k: int|
                    0 <= k < i ==> #[trigger] plan[k] is Some,
                self@.genome == after_swaps(old(self)@.genome, plan, i as nat),
                self@.fitness == old(self)@.fitness,
                rate.numerator == 0 ==> self@.genome == old(self)@.genome,
            decreases n - i,
        {
            let ghost earlier = plan;
            if random_chance(rng, rate.numerator, rate.denominator) {
                let j = random_below(rng, n as u128) as usize;
                proof {
                    plan = earlier.push(Some(j));
                }
                self.swap_positions(i, j);
            } else {
                proof {
                    plan = earlier.push(None);
                }
            }
            proof {
                lemma_after_swaps_of_longer_plan(old(self)@.genome, earlier, plan, i as nat);
                assert forall|k: int| 0 <= k < i implies plan[k] == earlier[k] by {}
            }
            i += 1;
        }
        proof {
            assert(is_swap_plan(plan, n as nat, rate) && self@.genome == after_swaps(
                old(self)@.genome,
                plan,
                n as nat,
            ));
            lemma_after_swaps_is_rearrangement(old(self)@.genome, plan, n as nat);
            vstd::seq_lib::to_multiset_len(self@.genome);
            vstd::seq_lib::to_multiset_len(old(self)@.genome);
            assert forall|m: nat| is_permutation(old(self)@.genome, m) implies is_permutation(
                self@.genome,
                m,
            ) by {
                lemma_rearrangement_is_permutation(old(self)@.genome, self@.genome, m);
            }
        }
    }

    /// The child of this candidate and `other` by partially mapped
    /// crossover, for the segment of the genome from `lo` up to, not
    /// including, `hi`: the child has the cities of `other` on the segment
    /// and is a tour of the same cities. Its fitness is not computed: the
    /// cache holds 0.
    pub fn crossover_between(&self, other: &Candidate, lo: usize, hi: usize) -> (child: Self)
        requires
            is_permutation(self@.genome, self@.genome.len()),
            is_permutation(other@.genome, self@.genome.len()),
            lo <= hi <= self@.genome.len(),
        ensures
            child@.genome == pmx(self@.genome, other@.genome, lo as int, hi as int),
            is_permutation(child@.genome, self@.genome.len()),
            forall|i: int| lo <= i < hi ==> child@.genome[i] == other@.genome[i],
            child@.fitness == 0,
    {
        let chromozones = partially_mapped(&self.chromozones, &other.chromozones, lo, hi);
        Candidate { chromozones, fitness: 0 }
    }

    /// The child of this candidate and `other` by partially mapped
    /// crossover, for a segment whose two ends are drawn at random. Its
    /// fitness is not computed: the cache holds 0.
    ///
    /// Whatever is drawn, the child is a tour of the same cities.
    pub fn crossover(&self, other: &Candidate, rng: &mut StdRng) -> (child: Self)
        requires
            self@.genome.len() > 0,
            is_permutation(self@.genome, self@.genome.len()),
            is_permutation(other@.genome, self@.genome.len()),
        ensures
            is_permutation(child@.genome, self@.genome.len()),
            child@.fitness == 0,
            is_crossover(child@.genome, self@.genome, other@.genome),
    {
        let n = self.chromozones.len();
        let a = random_below(rng, n as u128) as usize;
        let b = random_below(rng, n as u128) as usize;
        let (lo, hi) = if a <= b { (a, b + 1) } else { (b, a + 1) };
        let child = self.crossover_between(other, lo, hi);
        assert(child@.genome == pmx(self@.genome, other@.genome, lo as int, hi as int));
        child
    }
}

/// `plan` is a plan of swaps that a mutation at `rate` can draw for a genome
/// of `n` cities. It has one entry for each position of the genome, in
/// order. An entry that names a position says that the two are exchanged,
/// and it names a position of the genome; an entry that names none says that
/// the position is passed over. At the rate 0 every position is passed over,
/// at the rate 1 none is.
pub open spec fn is_swap_plan(plan: Seq<Option<usize>>, n: nat, rate: Fraction) -> bool {
    &&& plan.len() == n
    &&& forall|i: int| 0 <= i < plan.len() ==> (#[trigger] plan[i] matches Some(j) ==> j < n)
    &&& rate.numerator == 0 ==> forall|i: int| 0 <= i < plan.len() ==> #[trigger] plan[i] is None
    &&& rate.numerator == rate.denominator ==> forall|i: int|
        0 <= i < plan.len() ==> #[trigger] plan[i] is Some
}

} // verus!
