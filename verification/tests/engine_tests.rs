use genetic_tsp::candidate::Candidate;
use genetic_tsp::fraction::Fraction;
use genetic_tsp::genetic_algorithm::{GaError, GA};
use genetic_tsp::selection::{fitness_values, SelectionMethod};
use genetic_tsp::statistics::diversity;
use rand::rngs::StdRng;
use rand::SeedableRng;

fn unit_square() -> Vec<(u32, u32)> {
    vec![(0, 0), (0, 1), (1, 1), (1, 0)]
}

fn scattered(n: u32) -> Vec<(u32, u32)> {
    let mut cities = Vec::new();
    for i in 0..n {
        cities.push((i * 37 % 101, i * 53 % 97));
    }
    cities
}

fn population(size: usize, cities: &Vec<(u32, u32)>, seed: u64) -> Vec<Candidate> {
    let mut rng = StdRng::seed_from_u64(seed);
    let mut individuals = Vec::new();
    for _ in 0..size {
        individuals.push(Candidate::new(cities, &mut rng));
    }
    individuals
}

fn ratio(numerator: u32, denominator: u32) -> Fraction {
    Fraction { numerator, denominator }
}

fn engine(size: usize, cities: &Vec<(u32, u32)>, seed: u64, elitism: Fraction) -> GA {
    let individuals = population(size, cities, seed);
    match GA::new(individuals, cities.clone(), ratio(1, 20), ratio(1, 2), elitism) {
        Ok(ga) => ga,
        Err(e) => panic!("rejected: {:?}", e),
    }
}

fn ranking(individuals: &Vec<Candidate>) -> Vec<usize> {
    let mut order: Vec<usize> = Vec::new();
    for i in 0..individuals.len() {
        order.push(i);
    }
    order.sort_by(|a, b| {
        individuals[*b].fitness().cmp(&individuals[*a].fitness()).then(a.cmp(b))
    });
    order
}

fn snapshot(individuals: &Vec<Candidate>) -> Vec<(Vec<usize>, u64)> {
    let mut all = Vec::new();
    for c in individuals {
        all.push((c.chromozones.clone(), c.fitness()));
    }
    all
}

fn rejection(result: Result<GA, GaError>) -> GaError {
    match result {
        Ok(_) => panic!("accepted"),
        Err(e) => e,
    }
}

#[test]
fn new_stores_the_population_as_it_is() {
    let cities = scattered(8);
    let individuals = population(10, &cities, 1);
    let before = snapshot(&individuals);
    let ga = GA::new(individuals, cities, ratio(1, 10), ratio(1, 2), ratio(1, 5)).unwrap();
    assert_eq!(snapshot(ga.population()), before);
}

#[test]
fn new_rejects_an_empty_population() {
    let result = GA::new(Vec::new(), unit_square(), ratio(1, 10), ratio(1, 2), ratio(1, 5));
    assert_eq!(rejection(result), GaError::EmptyPopulation);
}

#[test]
fn new_rejects_an_empty_population_before_anything_else() {
    let result = GA::new(Vec::new(), Vec::new(), ratio(3, 2), ratio(1, 0), ratio(1, 1));
    assert_eq!(rejection(result), GaError::EmptyPopulation);
}

#[test]
fn new_rejects_a_rate_that_is_no_probability() {
    let cities = unit_square();
    let result = GA::new(population(4, &cities, 1), cities.clone(), ratio(3, 2), ratio(1, 2), ratio(0, 1));
    assert_eq!(rejection(result), GaError::InvalidConfiguration);
    let result = GA::new(population(4, &cities, 1), cities.clone(), ratio(1, 2), ratio(1, 0), ratio(0, 1));
    assert_eq!(rejection(result), GaError::InvalidConfiguration);
    let result = GA::new(population(4, &cities, 1), cities.clone(), ratio(1, 2), ratio(1, 2), ratio(2, 1));
    assert_eq!(rejection(result), GaError::InvalidConfiguration);
}

#[test]
fn new_rejects_an_elite_larger_than_the_selection() {
    let cities = unit_square();
    let result = GA::new(population(4, &cities, 1), cities, ratio(1, 2), ratio(1, 2), ratio(3, 4));
    assert_eq!(rejection(result), GaError::InvalidConfiguration);
}

#[test]
fn new_rejects_a_selection_of_no_one() {
    let cities = unit_square();
    let result = GA::new(population(4, &cities, 1), cities.clone(), ratio(1, 2), ratio(0, 1), ratio(0, 1));
    assert_eq!(rejection(result), GaError::InvalidConfiguration);
    let result = GA::new(population(4, &cities, 1), cities, ratio(1, 2), ratio(1, 5), ratio(0, 1));
    assert_eq!(rejection(result), GaError::InvalidConfiguration);
}

#[test]
fn new_rejects_cities_that_coincide() {
    let cities = vec![(2, 2), (2, 2), (2, 2)];
    let individuals = vec![Candidate::with_genome(vec![0, 1, 2])];
    let result = GA::new(individuals, cities, ratio(1, 2), ratio(1, 1), ratio(0, 1));
    assert_eq!(rejection(result), GaError::DegenerateFitness);
}

#[test]
fn new_rejects_a_single_city() {
    let individuals = vec![Candidate::with_genome(vec![0])];
    let result = GA::new(individuals, vec![(1, 2)], ratio(1, 2), ratio(1, 1), ratio(0, 1));
    assert_eq!(rejection(result), GaError::DegenerateFitness);
}

#[test]
fn new_rejects_a_genome_that_is_no_permutation() {
    let cities = unit_square();
    let mut individuals = population(3, &cities, 1);
    individuals.push(Candidate::with_genome(vec![0, 1, 1, 3]));
    let result = GA::new(individuals, cities.clone(), ratio(1, 2), ratio(1, 1), ratio(0, 1));
    assert_eq!(rejection(result), GaError::InvalidGenome);
    let mut individuals = population(3, &cities, 1);
    individuals.insert(0, Candidate::with_genome(vec![0, 1, 2]));
    let result = GA::new(individuals, cities, ratio(1, 2), ratio(1, 1), ratio(0, 1));
    assert_eq!(rejection(result), GaError::InvalidGenome);
}

#[test]
fn new_rejects_a_bad_genome_before_a_stale_fitness() {
    let cities = unit_square();
    let individuals =
        vec![Candidate::with_genome(vec![0, 1, 2, 3]), Candidate::with_genome(vec![0, 0, 0, 0])];
    let result = GA::new(individuals, cities, ratio(1, 2), ratio(1, 1), ratio(0, 1));
    assert_eq!(rejection(result), GaError::InvalidGenome);
}

#[test]
fn new_rejects_a_stale_fitness() {
    let cities = unit_square();
    let mut individuals = population(3, &cities, 1);
    individuals.push(Candidate::with_genome(vec![0, 1, 2, 3]));
    let result = GA::new(individuals, cities.clone(), ratio(1, 2), ratio(1, 1), ratio(0, 1));
    assert_eq!(rejection(result), GaError::StaleFitness);
    let mut individuals = population(3, &cities, 1);
    let mut stale = Candidate::with_genome(vec![0, 1, 2, 3]);
    stale.calcualte_fitness(&cities);
    stale.chromozones = vec![0, 2, 1, 3];
    individuals.push(stale);
    let result = GA::new(individuals, cities, ratio(1, 2), ratio(1, 1), ratio(0, 1));
    assert_eq!(rejection(result), GaError::StaleFitness);
}

#[test]
fn select_returns_the_share_of_the_population_that_was_asked_for() {
    let cities = scattered(10);
    let individuals = population(21, &cities, 2);
    let ga = GA::new(individuals, cities, ratio(1, 10), ratio(1, 2), ratio(1, 10)).unwrap();
    let mut rng = StdRng::seed_from_u64(5);
    assert_eq!(ga.select(SelectionMethod::Tournament(3), &mut rng).len(), 10);
    assert_eq!(ga.select(SelectionMethod::RouletteWheel, &mut rng).len(), 10);
}

#[test]
fn select_puts_the_elite_first() {
    let cities = scattered(10);
    let ga = engine(20, &cities, 3, ratio(1, 4));
    let order = ranking(ga.population());
    let expected = snapshot(ga.population());
    let mut rng = StdRng::seed_from_u64(5);
    for method in [SelectionMethod::Tournament(4), SelectionMethod::RouletteWheel] {
        let parents = snapshot(&ga.select(method, &mut rng));
        assert_eq!(parents.len(), 10);
        for i in 0..5 {
            assert_eq!(parents[i], expected[order[i]]);
        }
    }
}

#[test]
fn repopulate_keeps_the_size_of_the_population() {
    let cities = scattered(10);
    for parent_count in [3usize, 4, 10, 25] {
        let mut ga = engine(12, &cities, 4, ratio(1, 4));
        let parents = population(parent_count, &cities, 40 + parent_count as u64);
        let mut rng = StdRng::seed_from_u64(6);
        ga.repopulate(parents, &mut rng);
        assert_eq!(ga.population().len(), 12);
    }
}

#[test]
fn repopulate_ends_with_the_fittest_parents() {
    let cities = scattered(10);
    let mut ga = engine(12, &cities, 5, ratio(1, 4));
    let parents = population(7, &cities, 50);
    let order = ranking(&parents);
    let expected = snapshot(&parents);
    let mut rng = StdRng::seed_from_u64(7);
    ga.repopulate(parents, &mut rng);
    let next = snapshot(ga.population());
    assert_eq!(next.len(), 12);
    for i in 0..3 {
        assert_eq!(next[9 + i], expected[order[i]]);
    }
}

#[test]
fn repopulate_breeds_tours_with_their_fitness() {
    let cities = scattered(10);
    let mut ga = engine(12, &cities, 6, ratio(1, 4));
    let parents = population(5, &cities, 60);
    let mut rng = StdRng::seed_from_u64(8);
    ga.repopulate(parents, &mut rng);
    for child in ga.population() {
        assert!(child.is_valid(10));
        assert_eq!(child.fitness(), child.tour_fitness(&cities));
    }
}

#[test]
fn repopulate_without_mutation_breeds_crossovers_of_the_parents() {
    let cities = scattered(10);
    let individuals = population(12, &cities, 30);
    let mut ga = GA::new(individuals, cities.clone(), ratio(0, 1), ratio(1, 2), ratio(1, 4)).unwrap();
    let parents = population(5, &cities, 31);
    let genomes: Vec<Vec<usize>> = parents.iter().map(|p| p.chromozones.clone()).collect();
    let mut rng = StdRng::seed_from_u64(32);
    ga.repopulate(parents, &mut rng);
    for child in &ga.population()[0..9] {
        let mut found = false;
        for a in &genomes {
            for b in &genomes {
                for lo in 0..10 {
                    for hi in lo + 1..11 {
                        let base = Candidate::with_genome(a.clone());
                        let donor = Candidate::with_genome(b.clone());
                        if base.crossover_between(&donor, lo, hi).chromozones == child.chromozones {
                            found = true;
                        }
                    }
                }
            }
        }
        assert!(found);
    }
}

#[test]
fn repopulate_without_elite() {
    let cities = scattered(10);
    let mut ga = engine(8, &cities, 7, ratio(0, 1));
    let parents = population(1, &cities, 70);
    let mut rng = StdRng::seed_from_u64(9);
    ga.repopulate(parents, &mut rng);
    assert_eq!(ga.population().len(), 8);
}

#[test]
fn step_keeps_the_elite_unchanged() {
    let cities = scattered(12);
    for method in [SelectionMethod::Tournament(3), SelectionMethod::RouletteWheel] {
        let mut ga = engine(30, &cities, 8, ratio(1, 5));
        let mut rng = StdRng::seed_from_u64(10);
        for _ in 0..10 {
            let order = ranking(ga.population());
            let before = snapshot(ga.population());
            ga.step(method, &mut rng);
            let after = snapshot(ga.population());
            assert_eq!(after.len(), 30);
            for i in 0..6 {
                assert_eq!(after[24 + i], before[order[i]]);
            }
        }
    }
}

#[test]
fn step_returns_the_statistics_of_the_new_generation() {
    let cities = scattered(12);
    let mut ga = engine(25, &cities, 9, ratio(1, 5));
    let mut rng = StdRng::seed_from_u64(11);
    for _ in 0..5 {
        let (best, deviation, mean) = ga.step(SelectionMethod::Tournament(2), &mut rng);
        let fitness = fitness_values(ga.population());
        assert_eq!(best, *fitness.iter().max().unwrap());
        assert_eq!((deviation, mean), diversity(&fitness));
        assert_eq!((deviation, mean), ga.calculate_genetic_diversity());
        assert_eq!(best, ga.best().fitness());
    }
}

#[test]
fn step_never_lowers_the_best_fitness_with_an_elite() {
    let cities = scattered(15);
    let mut ga = engine(20, &cities, 10, ratio(1, 20));
    let mut rng = StdRng::seed_from_u64(12);
    let mut best = ga.best().fitness();
    for _ in 0..40 {
        let (next, _, _) = ga.step(SelectionMethod::RouletteWheel, &mut rng);
        assert!(next >= best);
        best = next;
    }
}

#[test]
fn step_is_reproducible_under_a_seed() {
    let cities = scattered(12);
    let mut first = engine(20, &cities, 11, ratio(1, 10));
    let mut second = first.clone();
    let mut first_rng = StdRng::seed_from_u64(77);
    let mut second_rng = StdRng::seed_from_u64(77);
    for _ in 0..5 {
        let a = first.step(SelectionMethod::Tournament(3), &mut first_rng);
        let b = second.step(SelectionMethod::Tournament(3), &mut second_rng);
        assert_eq!(a, b);
    }
    assert_eq!(snapshot(first.population()), snapshot(second.population()));
}

#[test]
fn best_is_the_fittest_of_the_population() {
    let cities = scattered(12);
    let ga = engine(25, &cities, 12, ratio(1, 5));
    let fitness = fitness_values(ga.population());
    assert_eq!(ga.best().fitness(), *fitness.iter().max().unwrap());
}

#[test]
fn best_is_the_last_of_equally_fit_individuals() {
    let cities = unit_square();
    let mut individuals = Vec::new();
    for genome in [vec![0, 2, 1, 3], vec![0, 1, 2, 3], vec![1, 2, 3, 0], vec![1, 3, 2, 0]] {
        let mut c = Candidate::with_genome(genome);
        c.calcualte_fitness(&cities);
        individuals.push(c);
    }
    let ga = GA::new(individuals, cities, ratio(0, 1), ratio(1, 1), ratio(0, 1)).unwrap();
    assert_eq!(ga.best().chromozones, vec![1, 2, 3, 0]);
    assert_eq!(ga.best().fitness(), 250_000_000);
}

#[test]
fn population_of_one_with_full_elitism_stays_as_it_is() {
    let cities = unit_square();
    let individuals = population(1, &cities, 13);
    let fitness = individuals[0].fitness();
    let genome = individuals[0].chromozones.clone();
    let mut ga = GA::new(individuals, cities, ratio(1, 2), ratio(1, 1), ratio(1, 1)).unwrap();
    let mut rng = StdRng::seed_from_u64(14);
    for method in [SelectionMethod::Tournament(2), SelectionMethod::RouletteWheel] {
        let (best, deviation, mean) = ga.step(method, &mut rng);
        assert_eq!(best, fitness);
        assert_eq!(mean, fitness);
        assert_eq!(deviation, 0);
        assert_eq!(ga.population().len(), 1);
        assert_eq!(ga.population()[0].chromozones, genome);
        assert_eq!(ga.best().fitness(), fitness);
    }
}

#[test]
fn unit_square_converges_to_the_round_tour() {
    let cities = unit_square();
    for method in [SelectionMethod::Tournament(3), SelectionMethod::RouletteWheel] {
        let mut ga = engine(12, &cities, 15, ratio(1, 10));
        let mut rng = StdRng::seed_from_u64(16);
        let mut best = ga.best().fitness();
        for _ in 0..60 {
            ga.step(method, &mut rng);
            let next = ga.best().fitness();
            assert!(next >= best);
            assert!(next <= 250_000_000);
            best = next;
        }
        assert_eq!(best, 250_000_000);
    }
}

#[test]
fn step_with_tournaments_of_one_entrant() {
    let cities = scattered(9);
    let mut ga = engine(10, &cities, 17, ratio(1, 10));
    let mut rng = StdRng::seed_from_u64(18);
    ga.step(SelectionMethod::Tournament(1), &mut rng);
    assert_eq!(ga.population().len(), 10);
}

#[test]
fn step_without_elite_replaces_the_whole_population() {
    let cities = scattered(9);
    let mut ga = engine(10, &cities, 19, ratio(0, 1));
    let mut rng = StdRng::seed_from_u64(20);
    ga.step(SelectionMethod::Tournament(2), &mut rng);
    assert_eq!(ga.population().len(), 10);
    for child in ga.population() {
        assert!(child.is_valid(9));
        assert_eq!(child.fitness(), child.tour_fitness(&cities));
    }
}

#[test]
fn clone_is_independent_of_its_source() {
    let cities = scattered(9);
    let ga = engine(10, &cities, 21, ratio(1, 10));
    let mut copy = ga.clone();
    let before = snapshot(ga.population());
    assert_eq!(snapshot(copy.population()), before);
    let mut rng = StdRng::seed_from_u64(22);
    copy.step(SelectionMethod::RouletteWheel, &mut rng);
    assert_eq!(snapshot(ga.population()), before);
}
