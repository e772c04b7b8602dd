//! The engine: a population of fixed size that is replaced, generation by
//! generation, by the children of selected parents and by the elite.

use crate::candidate::Candidate;
use crate::crossover::is_crossover;
use crate::fraction::Fraction;
use crate::random::random_below;
use crate::ranking::{
    elite_ranking, fittest_index, fittest_indices, is_last_maximum, is_maximum, is_top_ranking,
    lemma_covering_sequence_is_long, ranks_before,
};
use crate::roulette::{build_wheel, is_bucket, locate};
use crate::selection::{
    fitness_of, fitness_values, is_outside_value, is_outsider, is_selection,
    lemma_elite_stays_first, roulette_wheel_selection, tournament_selection, SelectionMethod,
};
use crate::statistics::{diversity, mean, standard_deviation};
use crate::tour::{
    check_cities_spread, cities_spread, lemma_fitness_monotonic, lemma_tour_positive,
    tour_fitness, tour_length,
};
use rand::rngs::StdRng;
use vstd::prelude::*;

verus! {

/// The strongest entrant wins a tournament with this chance out of
/// `PRESSURE_DENOMINATOR`.
pub const PRESSURE_NUMERATOR: u32 = 4;

/// See `PRESSURE_NUMERATOR`.
pub const PRESSURE_DENOMINATOR: u32 = 5;

/// Why a population and its settings cannot make an engine.
#[derive(Clone, Copy, Debug, PartialEq, Eq)]
pub enum GaError {
    /// The population has no individual.
    EmptyPopulation,
    /// A rate or a share is no probability, no parent would be selected, or
    /// the elite would be larger than the selection.
    InvalidConfiguration,
    /// No two cities lie apart, so that every tour has length zero and no
    /// fitness.
    DegenerateFitness,
    /// The genome of an individual is no permutation of the city indices.
    InvalidGenome,
    /// The fitness that an individual holds is not that of its genome.
    StaleFitness,
}

/// A genetic algorithm on tours through a fixed list of cities.
pub struct GA {
    cities: Vec<(u32, u32)>,
    population: Vec<Candidate>,
    population_size: usize,
    mutation_rate: Fraction,
    selection_target: usize,
    elitism_target: usize,
}

/// The first reason, if any, for which `GA::new` rejects its arguments.
pub open spec fn rejection(
    population: Seq<Candidate>,
    cities: Seq<(u32, u32)>,
    mutation_rate: Fraction,
    selection: Fraction,
    elitism: Fraction,
) -> Option<GaError> {
    let size = population.len();
    if size == 0 {
        Some(GaError::EmptyPopulation)
    } else if !mutation_rate.valid() || !selection.valid() || !elitism.valid()
        || selection.share_of(size) == 0 || elitism.share_of(size) > selection.share_of(size) {
        Some(GaError::InvalidConfiguration)
    } else if !cities_spread(cities) {
        Some(GaError::DegenerateFitness)
    } else if exists|i: int| 0 <= i < size && !(#[trigger] population[i]).is_tour_of(cities) {
        Some(GaError::InvalidGenome)
    } else if exists|i: int|
        0 <= i < size && (#[trigger] population[i])@.fitness != tour_fitness(
            cities,
            population[i]@.genome,
        ) {
        Some(GaError::StaleFitness)
    } else {
        None
    }
}

/// The genome of `child` is the crossover of the genomes of two of the
/// `parents`.
pub open spec fn is_offspring(child: Candidate, parents: Seq<Candidate>) -> bool {
    exists|a: int, b: int|
        #![trigger parents[a], parents[b]]
        0 <= a < parents.len() && 0 <= b < parents.len() && is_crossover(
            child@.genome,
            parents[a]@.genome,
            parents[b]@.genome,
        )
}

/// An individual with a tour of positive length and the fitness of that
/// tour has positive fitness.
pub proof fn lemma_well_formed_is_fit(candidate: Candidate, cities: Seq<(u32, u32)>)
    requires
        candidate.well_formed(cities),
    ensures
        candidate@.fitness > 0,
{
    let length = tour_length(cities, candidate@.genome);
    lemma_fitness_monotonic(length, length);
}

/// Tells whether every genome visits each of the cities once.
fn all_tours(population: &Vec<Candidate>, cities: &Vec<(u32, u32)>) -> (ok: bool)
    ensures
        ok == forall|i: int|
            0 <= i < population.len() ==> (#[trigger] population[i]).is_tour_of(cities@),
{
    let mut i: usize = 0;
    while i < population.len()
        invariant
            i <= population.len(),
            forall|k: int| 0 <= k < i ==> (#[trigger] population[k]).is_tour_of(cities@),
        decreases population.len() - i,
    {
        if !population[i].is_valid(cities.len()) {
            assert(!population[i as int].is_tour_of(cities@));
            return false;
        }
        i += 1;
    }
    true
}

/// Tells whether every individual holds the fitness of its tour.
fn all_evaluated(population: &Vec<Candidate>, cities: &Vec<(u32, u32)>) -> (ok: bool)
    requires
        cities_spread(cities@),
        forall|i: int| 0 <= i < population.len() ==> (#[trigger] population[i]).is_tour_of(cities@),
    ensures
        ok == forall|i: int|
            0 <= i < population.len() ==> (#[trigger] population[i])@.fitness == tour_fitness(
                cities@,
                population[i]@.genome,
            ),
        ok ==> forall|i: int|
            0 <= i < population.len() ==> (#[trigger] population[i]).well_formed(cities@),
{
    let city_count = cities.len();
    let mut i: usize = 0;
    while i < population.len()
        invariant
            i <= population.len(),
            city_count == cities.len(),
            cities_spread(cities@),
            forall|k: int|
                0 <= k < population.len() ==> (#[trigger] population[k]).is_tour_of(cities@),
            forall|k: int| 0 <= k < i ==> (#[trigger] population[k]).well_formed(cities@),
        decreases population.len() - i,
    {
        proof {
            assert(population[i as int].is_tour_of(cities@));
            lemma_tour_positive(cities@, population[i as int]@.genome);
        }
        if population[i].fitness() != population[i].tour_fitness(cities) {
            assert(population[i as int]@.fitness != tour_fitness(
                cities@,
                population[i as int]@.genome,
            ));
            return false;
        }
        i += 1;
    }
    true
}

impl GA {
    /// The cities that the tours visit.
    pub closed spec fn cities(&self) -> Seq<(u32, u32)> {
        self.cities@
    }

    /// The current generation.
    pub closed spec fn individuals(&self) -> Seq<Candidate> {
        self.population@
    }

    /// The probability with which a position of a child's genome is
    /// mutated.
    pub closed spec fn mutation_rate(&self) -> Fraction {
        self.mutation_rate
    }

    /// How many parents a selection returns.
    pub closed spec fn selection_target(&self) -> nat {
        self.selection_target as nat
    }

    /// How many of the fittest individuals pass to the next generation
    /// unchanged.
    pub closed spec fn elitism_target(&self) -> nat {
        self.elitism_target as nat
    }

    /// The recorded size is that of the population.
    pub closed spec fn size_recorded(&self) -> bool {
        self.population_size == self.population.len()
    }

    /// The invariant of the engine: a population that is not empty, of
    /// tours through cities that do not all coincide, each with its current
    /// fitness; and targets with `elitism_target <= selection_target <=`
    /// the size of the population, the selection not empty.
    pub open spec fn well_formed(&self) -> bool {
        &&& self.size_recorded()
        &&& self.individuals().len() > 0
        &&& self.cities().len() <= usize::MAX
        &&& cities_spread(self.cities())
        &&& forall|i: int|
            0 <= i < self.individuals().len() ==> (#[trigger] self.individuals()[i]).well_formed(
                self.cities(),
            )
        &&& 1 <= self.selection_target() <= self.individuals().len()
        &&& self.elitism_target() <= self.selection_target()
        &&& self.mutation_rate().valid()
    }

    /// The two engines differ in their individuals at most: cities, rate,
    /// targets and the size of the population are the same.
    pub open spec fn same_settings(&self, other: &GA) -> bool {
        &&& self.cities() == other.cities()
        &&& self.mutation_rate() == other.mutation_rate()
        &&& self.selection_target() == other.selection_target()
        &&& self.elitism_target() == other.elitism_target()
        &&& self.individuals().len() == other.individuals().len()
    }

    /// An engine on the given population, which is stored as it is.
    ///
    /// `selection_target` and `elitism` are shares of the population: the
    /// numbers of parents and of elite individuals are these shares of its
    /// size, rounded down. The arguments are rejected for the first reason
    /// that `rejection` finds.
    pub fn new(
        population: Vec<Candidate>,
        cities: Vec<(u32, u32)>,
        mutation_rate: Fraction,
        selection_target: Fraction,
        elitism: Fraction,
    ) -> (r: Result<GA, GaError>)
        ensures
            match r {
                Ok(ga) => {
                    &&& rejection(population@, cities@, mutation_rate, selection_target, elitism)
                        is None
                    &&& ga.well_formed()
                    &&& ga.individuals() == population@
                    &&& ga.cities() == cities@
                    &&& ga.mutation_rate() == mutation_rate
                    &&& ga.selection_target() == selection_target.share_of(population.len() as nat)
                    &&& ga.elitism_target() == elitism.share_of(population.len() as nat)
                },
                Err(e) => rejection(population@, cities@, mutation_rate, selection_target, elitism)
                    == Some(e),
            },
    {
        let population_size = population.len();
        let city_count = cities.len();
        if population_size == 0 {
            return Err(GaError::EmptyPopulation);
        }
        if !mutation_rate.is_valid() || !selection_target.is_valid() || !elitism.is_valid() {
            return Err(GaError::InvalidConfiguration);
        }
        let parents = selection_target.scale(population_size);
        let elite = elitism.scale(population_size);
        if parents == 0 || elite > parents {
            return Err(GaError::InvalidConfiguration);
        }
        if !check_cities_spread(&cities) {
            return Err(GaError::DegenerateFitness);
        }
        if !all_tours(&population, &cities) {
            return Err(GaError::InvalidGenome);
        }
        if !all_evaluated(&population, &cities) {
            return Err(GaError::StaleFitness);
        }
        Ok(
            GA {
                cities,
                population,
                population_size,
                mutation_rate,
                selection_target: parents,
                elitism_target: elite,
            },
        )
    }

    /// The current generation.
    pub fn population(&self) -> (population: &Vec<Candidate>)
        ensures
            population@ == self.individuals(),
    {
        &self.population
    }

    /// Selects the parents of the next generation: the elite first, then
    /// parents drawn by `method` from outside the elite.
    pub fn select(&self, method: SelectionMethod, rng: &mut StdRng) -> (parents: Vec<Candidate>)
        requires
            self.well_formed(),
            method matches SelectionMethod::Tournament(k) ==> k > 0,
        ensures
            is_selection(
                parents@,
                self.individuals(),
                self.selection_target(),
                self.elitism_target(),
            ),
            forall|i: int|
                0 <= i < parents.len() ==> (#[trigger] parents[i]).well_formed(self.cities()),
    {
        let parents = match method {
            SelectionMethod::Tournament(k) => tournament_selection(
                k,
                self.selection_target,
                &self.population,
                Fraction { numerator: PRESSURE_NUMERATOR, denominator: PRESSURE_DENOMINATOR },
                self.elitism_target,
                rng,
            ),
            SelectionMethod::RouletteWheel => {
                proof {
                    self.lemma_wheel_has_tickets();
                }
                roulette_wheel_selection(
                    self.selection_target,
                    &self.population,
                    self.elitism_target,
                    rng,
                )
            },
        };
        proof {
            let elite = elite_ranking(fitness_of(self.individuals()), self.elitism_target());
            assert forall|i: int| 0 <= i < parents.len() implies (#[trigger] parents[i]).well_formed(
                self.cities(),
            ) by {
                if i < self.elitism_target() {
                    self.lemma_elite_exists();
                    assert(parents[i]@ == self.individuals()[elite[i] as int]@);
                    assert(self.individuals()[elite[i] as int].well_formed(self.cities()));
                } else {
                    assert(is_outsider(self.individuals(), elite, parents[i]));
                    let j = choose|j: usize|
                        #![trigger elite.contains(j)]
                        j < self.individuals().len() && !elite.contains(j) && parents[i]@
                            == self.individuals()[j as int]@;
                    assert(self.individuals()[j as int].well_formed(self.cities()));
                }
            }
        }
        parents
    }

    /// The population has an elite of the size that the engine keeps.
    proof fn lemma_elite_exists(&self)
        requires
            self.well_formed(),
        ensures
            is_top_ranking(
                fitness_of(self.individuals()),
                elite_ranking(fitness_of(self.individuals()), self.elitism_target()),
            ),
            elite_ranking(fitness_of(self.individuals()), self.elitism_target()).len()
                == self.elitism_target(),
    {
        crate::ranking::lemma_elite_ranking_exists(
            fitness_of(self.individuals()),
            self.elitism_target(),
        );
    }

    /// Where a parent is to be drawn, an individual outside the elite has
    /// positive fitness.
    proof fn lemma_wheel_has_tickets(&self)
        requires
            self.well_formed(),
        ensures
            self.elitism_target() < self.selection_target() ==> exists|j: usize|
                j < self.individuals().len() && !elite_ranking(
                    fitness_of(self.individuals()),
                    self.elitism_target(),
                ).contains(j) && self.individuals()[j as int]@.fitness > 0,
    {
        if self.elitism_target() < self.selection_target() {
            self.lemma_elite_exists();
            let elite = elite_ranking(fitness_of(self.individuals()), self.elitism_target());
            let n = self.individuals().len();
            if forall|c: usize| c < n ==> elite.contains(c) {
                lemma_covering_sequence_is_long(elite, n);
            }
            let j = choose|j: usize| j < n && !elite.contains(j);
            lemma_well_formed_is_fit(self.individuals()[j as int], self.cities());
        }
    }

    /// Replaces the population by the next generation.
    ///
    /// The new generation has the size of the old one. First come the
    /// children: each is the crossover of two parents, drawn from `parents`
    /// with a chance in proportion to their fitness, then mutated at the
    /// engine's rate, then evaluated. Last come copies of the
    /// `elitism_target` fittest parents, fittest first.
    ///
    /// Whatever is drawn, every child is a tour of the cities with its
    /// current fitness; with the mutation rate 0 it is the crossover of two
    /// of the parents.
    pub fn repopulate(&mut self, parents: Vec<Candidate>, rng: &mut StdRng)
        requires
            old(self).well_formed(),
            forall|i: int|
                0 <= i < parents.len() ==> (#[trigger] parents[i]).well_formed(old(self).cities()),
            parents.len() >= old(self).elitism_target(),
            old(self).elitism_target() < old(self).individuals().len() ==> parents.len() > 0,
        ensures
            final(self).well_formed(),
            final(self).same_settings(old(self)),
            forall|j: int|
                old(self).individuals().len() - old(self).elitism_target() <= j < old(
                    self,
                ).individuals().len() ==> (#[trigger] final(self).individuals()[j])@
                    == parents[elite_ranking(fitness_of(parents@), old(self).elitism_target())[j
                    - (old(self).individuals().len() - old(self).elitism_target())] as int]@,
            old(self).mutation_rate().numerator == 0 ==> forall|i: int|
                0 <= i < old(self).individuals().len() - old(self).elitism_target()
                    ==> is_offspring(#[trigger] final(self).individuals()[i], parents@),
    {
        let size = self.population_size;
        let kept = self.elitism_target;
        let fitness = fitness_values(&parents);
        let mut next: Vec<Candidate> = Vec::new();
        if kept < size {
            let wheel = build_wheel(&fitness);
            proof {
                lemma_well_formed_is_fit(parents[0], self.cities());
                crate::arithmetic::lemma_sum_covers_term(fitness@, 0);
            }
            let total = wheel[wheel.len() - 1];
            while next.len() < size - kept
                invariant
                    kept < size,
                    next.len() <= size - kept,
                    self.well_formed(),
                    *self == *old(self),
                    fitness@ == fitness_of(parents@),
                    wheel.len() == parents.len(),
                    wheel.len() > 0,
                    crate::roulette::is_rising(wheel@),
                    total == wheel[wheel.len() - 1],
                    total > 0,
                    forall|i: int|
                        0 <= i < parents.len() ==> (#[trigger] parents[i]).well_formed(
                            self.cities(),
                        ),
                    forall|i: int|
                        0 <= i < next.len() ==> (#[trigger] next[i]).well_formed(self.cities()),
                    self.mutation_rate().numerator == 0 ==> forall|i: int|
                        0 <= i < next.len() ==> is_offspring(#[trigger] next[i], parents@),
                decreases size - kept - next.len(),
            {
                let first = self.pick(&wheel, total, rng);
                let second = self.pick(&wheel, total, rng);
                assert(parents[first as int].well_formed(self.cities()));
                assert(parents[second as int].well_formed(self.cities()));
                let mut child = parents[first].crossover(&parents[second], rng);
                child.mutate(self.mutation_rate, rng);
                proof {
                    lemma_tour_positive(self.cities(), child@.genome);
                }
                child.calcualte_fitness(&self.cities);
                let ghost before = next@;
                next.push(child);
                proof {
                    if self.mutation_rate().numerator == 0 {
                        assert(is_crossover(
                            child@.genome,
                            parents[first as int]@.genome,
                            parents[second as int]@.genome,
                        ));
                        assert forall|i: int| 0 <= i < next.len() implies is_offspring(
                            #[trigger] next[i],
                            parents@,
                        ) by {
                            if i < before.len() {
                                assert(next[i] == before[i]);
                            }
                        }
                    }
                }
            }
        }
        let elite = fittest_indices(&fitness, kept);
        let ghost bred = next.len();
        let mut i: usize = 0;
        while i < kept
            invariant
                i <= kept,
                kept == elite.len(),
                next.len() == bred + i,
                self.well_formed(),
                *self == *old(self),
                fitness@ == fitness_of(parents@),
                is_top_ranking(fitness@, elite@),
                forall|i: int|
                    0 <= i < parents.len() ==> (#[trigger] parents[i]).well_formed(self.cities()),
                forall|t: int|
                    0 <= t < next.len() ==> (#[trigger] next[t]).well_formed(self.cities()),
                forall|j: int|
                    bred <= j < bred + i ==> (#[trigger] next[j])@ == parents[elite[j
                        - bred] as int]@,
                self.mutation_rate().numerator == 0 ==> forall|t: int|
                    0 <= t < bred ==> is_offspring(#[trigger] next[t], parents@),
            decreases kept - i,
        {
            let ghost before = next@;
            assert(parents[elite[i as int] as int].well_formed(self.cities()));
            next.push(parents[elite[i]].clone());
            assert forall|j: int| bred <= j < bred + i implies (#[trigger] next[j])@
                == parents[elite[j - bred] as int]@ by {
                assert(next[j] == before[j]);
            }
            assert(self.mutation_rate().numerator == 0 ==> forall|t: int|
                0 <= t < bred ==> is_offspring(#[trigger] next[t], parents@)) by {
                assert forall|t: int| 0 <= t < bred implies next[t] == before[t] by {}
            }
            i += 1;
        }
        self.population = next;
    }

    /// Draws one parent on the wheel: a ticket below the wheel's total is
    /// drawn, and the parent is the one to which that ticket falls.
    fn pick(&self, wheel: &Vec<u128>, total: u128, rng: &mut StdRng) -> (i: usize)
        requires
            wheel.len() > 0,
            crate::roulette::is_rising(wheel@),
            total == wheel[wheel.len() - 1],
            total > 0,
        ensures
            i < wheel.len(),
            exists|ticket: u128|
                #![trigger is_bucket(wheel@, ticket, i as int)]
                ticket < total && is_bucket(wheel@, ticket, i as int),
    {
        let ticket = random_below(rng, total);
        locate(wheel, ticket)
    }

    /// The standard deviation and the mean of the fitness of the
    /// population.
    pub fn calculate_genetic_diversity(&self) -> (r: (u64, u64))
        requires
            self.well_formed(),
        ensures
            r.0 == standard_deviation(fitness_of(self.individuals())),
            r.1 == mean(fitness_of(self.individuals())),
    {
        let fitness = fitness_values(&self.population);
        diversity(&fitness)
    }

    /// Advances the engine by one generation and returns the greatest
    /// fitness, the standard deviation of the fitness and its mean, all of
    /// the new generation.
    ///
    /// The elite of the old generation stands unchanged at the end of the
    /// new one; so, with an elite of one or more, the greatest fitness never
    /// falls.
    pub fn step(&mut self, selection_method: SelectionMethod, rng: &mut StdRng) -> (r: (
        u64,
        u64,
        u64,
    ))
        requires
            old(self).well_formed(),
            selection_method matches SelectionMethod::Tournament(k) ==> k > 0,
        ensures
            final(self).well_formed(),
            final(self).same_settings(old(self)),
            is_maximum(fitness_of(final(self).individuals()), r.0),
            r.1 == standard_deviation(fitness_of(final(self).individuals())),
            r.2 == mean(fitness_of(final(self).individuals())),
            forall|j: int|
                old(self).individuals().len() - old(self).elitism_target() <= j < old(
                    self,
                ).individuals().len() ==> (#[trigger] final(self).individuals()[j])@ == old(
                    self,
                ).individuals()[elite_ranking(
                    fitness_of(old(self).individuals()),
                    old(self).elitism_target(),
                )[j - (old(self).individuals().len() - old(self).elitism_target())] as int]@,
            old(self).elitism_target() >= 1 ==> forall|i: int|
                0 <= i < old(self).individuals().len() ==> (#[trigger] old(
                    self,
                ).individuals()[i])@.fitness <= r.0,
    {
        let parents = self.select(selection_method, rng);
        proof {
            self.lemma_elite_exists();
            let f = fitness_of(self.individuals());
            let pf = fitness_of(parents@);
            let elite = elite_ranking(f, self.elitism_target());
            assert forall|i: int| 0 <= i < elite.len() implies pf[i] == f[elite[i] as int] by {
                assert(parents[i]@ == self.individuals()[elite[i] as int]@);
            }
            assert forall|i: int| elite.len() <= i < pf.len() implies is_outside_value(
                f,
                elite,
                #[trigger] pf[i],
            ) by {
                assert(is_outsider(self.individuals(), elite, parents[i]));
                let j = choose|j: usize|
                    #![trigger elite.contains(j)]
                    j < self.individuals().len() && !elite.contains(j) && parents[i]@
                        == self.individuals()[j as int]@;
                assert(j < f.len() && !elite.contains(j) && pf[i] == f[j as int]);
            }
            lemma_elite_stays_first(f, elite, pf);
        }
        let ghost parents_seq = parents@;
        self.repopulate(parents, rng);
        let fitness = fitness_values(&self.population);
        let best = fittest_index(&fitness);
        let (deviation, mean) = diversity(&fitness);
        proof {
            let kept = old(self).elitism_target();
            let size = old(self).individuals().len();
            let elite = elite_ranking(fitness_of(old(self).individuals()), kept);
            assert forall|j: int| size - kept <= j < size implies (#[trigger] self.individuals()[j])@
                == old(self).individuals()[elite[j - (size - kept)] as int]@ by {
                let i = j - (size - kept);
                assert(elite_ranking(fitness_of(parents_seq), kept)[i] == i);
                assert(parents_seq[i]@ == old(self).individuals()[elite[i] as int]@);
            }
            if kept >= 1 {
                let top = elite[0];
                assert(self.individuals()[size - kept]@ == old(self).individuals()[top as int]@);
                assert(fitness@[size - kept] == old(self).individuals()[top as int]@.fitness);
                assert forall|i: int| 0 <= i < size implies (#[trigger] old(
                    self,
                ).individuals()[i])@.fitness <= fitness[best as int] by {
                    let f = fitness_of(old(self).individuals());
                    if i != top {
                        if elite.contains(i as usize) {
                            let t = choose|t: int| 0 <= t < elite.len() && elite[t] == i as usize;
                            assert(ranks_before(f, elite[0] as int, elite[t] as int));
                        } else {
                            assert(ranks_before(f, elite[0] as int, i));
                        }
                    }
                    assert(f[i] <= f[top as int]);
                }
            }
        }
        (fitness[best], deviation, mean)
    }

    /// A copy of the fittest individual of the population; of several
    /// equally fit, the last.
    pub fn best(&self) -> (best: Candidate)
        requires
            self.well_formed(),
        ensures
            exists|j: int|
                is_last_maximum(fitness_of(self.individuals()), j) && best@
                    == self.individuals()[j]@,
            best.well_formed(self.cities()),
    {
        let fitness = fitness_values(&self.population);
        let j = fittest_index(&fitness);
        assert(self.individuals()[j as int].well_formed(self.cities()));
        self.population[j].clone()
    }
}

impl Clone for GA {
    fn clone(&self) -> (copy: Self)
        ensures
            copy.same_settings(self),
            forall|i: int|
                0 <= i < self.individuals().len() ==> (#[trigger] copy.individuals()[i])@
                    == self.individuals()[i]@,
            self.well_formed() ==> copy.well_formed(),
    {
        let mut cities: Vec<(u32, u32)> = Vec::new();
        let mut k: usize = 0;
        while k < self.cities.len()
            invariant
                k <= self.cities.len(),
                cities.len() == k,
                forall|i: int| 0 <= i < k ==> cities[i] == self.cities[i],
            decreases self.cities.len() - k,
        {
            cities.push(self.cities[k]);
            k += 1;
        }
        assert(cities@ =~= self.cities@);
        let mut population: Vec<Candidate> = Vec::new();
        k = 0;
        while k < self.population.len()
            invariant
                k <= self.population.len(),
                population.len() == k,
                forall|i: int| 0 <= i < k ==> (#[trigger] population[i])@ == self.population[i]@,
            decreases self.population.len() - k,
        {
            population.push(self.population[k].clone());
            k += 1;
        }
        let copy = GA {
            cities,
            population,
            population_size: self.population_size,
            mutation_rate: self.mutation_rate,
            selection_target: self.selection_target,
            elitism_target: self.elitism_target,
        };
        proof {
            if self.well_formed() {
                assert forall|i: int| 0 <= i < copy.individuals().len() implies (
                #[trigger] copy.individuals()[i]).well_formed(copy.cities()) by {
                    assert(self.individuals()[i].well_formed(self.cities()));
                }
            }
        }
        copy
    }
}

} // verus!
