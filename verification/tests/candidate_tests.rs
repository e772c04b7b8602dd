use genetic_tsp::candidate::Candidate;
use genetic_tsp::fraction::Fraction;
use rand::rngs::StdRng;
use rand::SeedableRng;

fn unit_square() -> Vec<(u32, u32)> {
    vec![(0, 0), (0, 1), (1, 1), (1, 0)]
}

fn line(n: u32) -> Vec<(u32, u32)> {
    let mut cities = Vec::new();
    for i in 0..n {
        cities.push((i, 0));
    }
    cities
}

fn ascending(n: usize) -> Vec<usize> {
    let mut order = Vec::new();
    for i in 0..n {
        order.push(i);
    }
    order
}

fn sorted(genome: &Vec<usize>) -> Vec<usize> {
    let mut copy = genome.clone();
    copy.sort();
    copy
}

#[test]
fn empty_candidate_has_no_genome_and_no_fitness() {
    let c = Candidate::empty();
    assert!(c.chromozones.is_empty());
    assert_eq!(c.fitness(), 0);
}

#[test]
fn with_genome_keeps_the_genome() {
    let c = Candidate::with_genome(vec![2, 0, 1]);
    assert_eq!(c.chromozones, vec![2, 0, 1]);
    assert_eq!(c.fitness(), 0);
}

#[test]
fn new_candidate_is_a_permutation_of_the_cities() {
    let cities = unit_square();
    for seed in 0..50 {
        let mut rng = StdRng::seed_from_u64(seed);
        let c = Candidate::new(&cities, &mut rng);
        assert_eq!(sorted(&c.chromozones), vec![0, 1, 2, 3]);
        assert!(c.is_valid(4));
    }
}

#[test]
fn new_candidate_is_shuffled() {
    let cities = line(30);
    let mut rng = StdRng::seed_from_u64(11);
    let c = Candidate::new(&cities, &mut rng);
    assert_eq!(sorted(&c.chromozones), ascending(30));
    assert_ne!(c.chromozones, ascending(30));
}

#[test]
fn new_candidate_holds_the_fitness_of_its_tour() {
    let cities = line(12);
    let mut rng = StdRng::seed_from_u64(3);
    let c = Candidate::new(&cities, &mut rng);
    assert!(c.fitness() > 0);
    assert_eq!(c.fitness(), c.tour_fitness(&cities));
}

#[test]
fn new_candidate_of_two_cities() {
    let cities = vec![(0, 0), (3, 4)];
    let mut rng = StdRng::seed_from_u64(5);
    let c = Candidate::new(&cities, &mut rng);
    assert_eq!(sorted(&c.chromozones), vec![0, 1]);
    assert_eq!(c.fitness(), 100_000_000);
}

#[test]
fn calcualte_fitness_of_the_unit_square() {
    let cities = unit_square();
    let mut c = Candidate::with_genome(vec![0, 1, 2, 3]);
    assert_eq!(c.calcualte_fitness(&cities), 250_000_000);
    assert_eq!(c.fitness(), 250_000_000);
    assert_eq!(c.chromozones, vec![0, 1, 2, 3]);
}

#[test]
fn calcualte_fitness_of_a_crossing_tour() {
    let cities = unit_square();
    let mut c = Candidate::with_genome(vec![0, 2, 1, 3]);
    assert_eq!(c.calcualte_fitness(&cities), 207_106_830);
}

#[test]
fn calcualte_fitness_of_a_triangle() {
    let cities = vec![(0, 0), (3, 4), (6, 0)];
    let mut c = Candidate::with_genome(vec![0, 1, 2]);
    assert_eq!(c.calcualte_fitness(&cities), 62_500_000);
}

#[test]
fn calcualte_fitness_follows_a_write_to_the_genome() {
    let cities = unit_square();
    let mut c = Candidate::with_genome(vec![0, 1, 2, 3]);
    c.calcualte_fitness(&cities);
    c.chromozones = vec![0, 2, 1, 3];
    assert_eq!(c.fitness(), 250_000_000);
    assert_eq!(c.calcualte_fitness(&cities), 207_106_830);
    assert_eq!(c.fitness(), 207_106_830);
}

#[test]
fn tour_fitness_leaves_the_cache() {
    let cities = unit_square();
    let c = Candidate::with_genome(vec![0, 1, 2, 3]);
    assert_eq!(c.tour_fitness(&cities), 250_000_000);
    assert_eq!(c.fitness(), 0);
}

#[test]
fn is_valid_tells_permutations_from_other_genomes() {
    assert!(Candidate::with_genome(vec![3, 1, 0, 2]).is_valid(4));
    assert!(!Candidate::with_genome(vec![3, 1, 1, 2]).is_valid(4));
    assert!(!Candidate::with_genome(vec![3, 1, 0]).is_valid(4));
    assert!(!Candidate::with_genome(vec![4, 1, 0, 2]).is_valid(4));
    assert!(Candidate::empty().is_valid(0));
    assert!(!Candidate::empty().is_valid(1));
}

#[test]
fn swap_positions_exchanges_two_cities() {
    let mut c = Candidate::with_genome(vec![4, 3, 2, 1, 0]);
    c.swap_positions(1, 4);
    assert_eq!(c.chromozones, vec![4, 0, 2, 1, 3]);
    c.swap_positions(2, 2);
    assert_eq!(c.chromozones, vec![4, 0, 2, 1, 3]);
}

#[test]
fn mutate_with_rate_zero_changes_nothing() {
    let mut rng = StdRng::seed_from_u64(1);
    let mut c = Candidate::with_genome(ascending(40));
    c.mutate(Fraction { numerator: 0, denominator: 1 }, &mut rng);
    assert_eq!(c.chromozones, ascending(40));
}

#[test]
fn mutate_with_rate_one_moves_cities() {
    let mut rng = StdRng::seed_from_u64(2);
    let mut c = Candidate::with_genome(ascending(40));
    c.mutate(Fraction { numerator: 1, denominator: 1 }, &mut rng);
    assert_ne!(c.chromozones, ascending(40));
    assert_eq!(sorted(&c.chromozones), ascending(40));
}

#[test]
fn mutate_keeps_a_permutation() {
    for seed in 0..100 {
        let mut rng = StdRng::seed_from_u64(seed);
        let mut c = Candidate::with_genome(ascending(17));
        c.mutate(Fraction { numerator: 1, denominator: 3 }, &mut rng);
        assert!(c.is_valid(17));
    }
}

#[test]
fn mutate_keeps_the_cities_of_any_genome() {
    let mut rng = StdRng::seed_from_u64(9);
    let mut c = Candidate::with_genome(vec![5, 5, 1, 9, 1]);
    c.mutate(Fraction { numerator: 1, denominator: 1 }, &mut rng);
    assert_eq!(sorted(&c.chromozones), vec![1, 1, 5, 5, 9]);
}

#[test]
fn mutate_of_an_empty_genome() {
    let mut rng = StdRng::seed_from_u64(9);
    let mut c = Candidate::empty();
    c.mutate(Fraction { numerator: 1, denominator: 1 }, &mut rng);
    assert!(c.chromozones.is_empty());
}

#[test]
fn mutate_leaves_the_cached_fitness() {
    let cities = line(10);
    let mut rng = StdRng::seed_from_u64(4);
    let mut c = Candidate::new(&cities, &mut rng);
    let cached = c.fitness();
    c.mutate(Fraction { numerator: 1, denominator: 1 }, &mut rng);
    assert_eq!(c.fitness(), cached);
}

#[test]
fn crossover_between_takes_the_segment_from_the_other() {
    let a = Candidate::with_genome(vec![0, 1, 2, 3, 4]);
    let b = Candidate::with_genome(vec![4, 3, 2, 1, 0]);
    let child = a.crossover_between(&b, 1, 3);
    assert_eq!(child.chromozones, vec![0, 3, 2, 1, 4]);
    assert_eq!(child.fitness(), 0);
}

#[test]
fn crossover_between_displaces_city_by_city() {
    let a = Candidate::with_genome(vec![0, 1, 2, 3, 4, 5]);
    let b = Candidate::with_genome(vec![3, 4, 5, 0, 1, 2]);
    let child = a.crossover_between(&b, 0, 2);
    assert_eq!(child.chromozones, vec![3, 4, 2, 0, 1, 5]);
}

#[test]
fn crossover_between_on_an_empty_segment_copies_the_first_parent() {
    let a = Candidate::with_genome(vec![2, 0, 1, 3]);
    let b = Candidate::with_genome(vec![3, 2, 1, 0]);
    assert_eq!(a.crossover_between(&b, 2, 2).chromozones, vec![2, 0, 1, 3]);
    assert_eq!(a.crossover_between(&b, 0, 0).chromozones, vec![2, 0, 1, 3]);
    assert_eq!(a.crossover_between(&b, 4, 4).chromozones, vec![2, 0, 1, 3]);
}

#[test]
fn crossover_between_on_the_whole_genome_copies_the_second_parent() {
    let a = Candidate::with_genome(vec![2, 0, 1, 3]);
    let b = Candidate::with_genome(vec![3, 2, 1, 0]);
    assert_eq!(a.crossover_between(&b, 0, 4).chromozones, vec![3, 2, 1, 0]);
}

#[test]
fn crossover_child_is_a_permutation() {
    let cities = line(15);
    for seed in 0..100 {
        let mut rng = StdRng::seed_from_u64(seed);
        let a = Candidate::new(&cities, &mut rng);
        let b = Candidate::new(&cities, &mut rng);
        let child = a.crossover(&b, &mut rng);
        assert!(child.is_valid(15));
        assert_eq!(child.fitness(), 0);
    }
}

#[test]
fn crossover_child_agrees_with_one_parent_somewhere() {
    let cities = line(15);
    for seed in 0..50 {
        let mut rng = StdRng::seed_from_u64(seed);
        let a = Candidate::new(&cities, &mut rng);
        let b = Candidate::new(&cities, &mut rng);
        let child = a.crossover(&b, &mut rng);
        let mut from_other = false;
        for i in 0..15 {
            if child.chromozones[i] == b.chromozones[i] {
                from_other = true;
            }
        }
        assert!(from_other);
    }
}

#[test]
fn crossover_of_single_city_genomes() {
    let mut rng = StdRng::seed_from_u64(0);
    let a = Candidate::with_genome(vec![0]);
    let b = Candidate::with_genome(vec![0]);
    assert_eq!(a.crossover(&b, &mut rng).chromozones, vec![0]);
}

#[test]
fn clone_keeps_genome_and_fitness() {
    let cities = unit_square();
    let mut rng = StdRng::seed_from_u64(8);
    let c = Candidate::new(&cities, &mut rng);
    let copy = c.clone();
    assert_eq!(copy.chromozones, c.chromozones);
    assert_eq!(copy.fitness(), c.fitness());
}
