use genetic_tsp::permutation::check_permutation;
use genetic_tsp::tour::{
    check_cities_spread, edge, fitness_from_length, measure_tour, DISTANCE_SCALE,
    FITNESS_NUMERATOR,
};

fn square() -> Vec<(u32, u32)> {
    vec![(0, 0), (0, 1), (1, 1), (1, 0)]
}

#[test]
fn edge_of_a_three_four_five_triangle() {
    assert_eq!(edge((0, 0), (3, 4)), 5_000_000);
    assert_eq!(edge((3, 4), (0, 0)), 5_000_000);
    assert_eq!(edge((10, 14), (13, 10)), 5_000_000);
}

#[test]
fn edge_is_rounded_down() {
    assert_eq!(edge((0, 0), (1, 1)), 1_414_213);
    assert_eq!(edge((0, 0), (1, 2)), 2_236_067);
}

#[test]
fn edge_between_a_city_and_itself_is_zero() {
    assert_eq!(edge((7, 9), (7, 9)), 0);
}

#[test]
fn edge_between_neighbours_is_one_unit() {
    assert_eq!(edge((5, 5), (5, 6)), DISTANCE_SCALE);
    assert_eq!(edge((5, 5), (4, 5)), DISTANCE_SCALE);
}

#[test]
fn edge_between_the_farthest_cities() {
    assert_eq!(edge((0, 0), (u32::MAX, u32::MAX)), 6_074_000_998_537_885);
    assert_eq!(edge((u32::MAX, 0), (0, u32::MAX)), 6_074_000_998_537_885);
}

#[test]
fn unit_square_tour_has_length_four() {
    assert_eq!(measure_tour(&square(), &vec![0, 1, 2, 3]), 4_000_000);
    assert_eq!(measure_tour(&square(), &vec![2, 1, 0, 3]), 4_000_000);
}

#[test]
fn crossing_tour_of_the_square_is_longer() {
    assert_eq!(measure_tour(&square(), &vec![0, 2, 1, 3]), 4_828_426);
}

#[test]
fn tour_of_one_city_has_length_zero() {
    assert_eq!(measure_tour(&square(), &vec![2]), 0);
}

#[test]
fn tour_of_two_cities_goes_there_and_back() {
    assert_eq!(measure_tour(&vec![(0, 0), (3, 4)], &vec![0, 1]), 10_000_000);
}

#[test]
fn fitness_of_the_unit_square_is_250() {
    let length = measure_tour(&square(), &vec![0, 1, 2, 3]);
    assert_eq!(fitness_from_length(length), 250_000_000);
}

#[test]
fn fitness_is_rounded_up() {
    assert_eq!(fitness_from_length(3), 333_333_333_333_334);
    assert_eq!(fitness_from_length(4_828_426), 207_106_830);
}

#[test]
fn fitness_at_the_ends_of_its_range() {
    assert_eq!(fitness_from_length(1), FITNESS_NUMERATOR);
    assert_eq!(fitness_from_length(FITNESS_NUMERATOR as u128), 1);
    assert_eq!(fitness_from_length(FITNESS_NUMERATOR as u128 + 1), 1);
    assert_eq!(fitness_from_length(u128::MAX), 1);
}

#[test]
fn shortening_a_tour_does_not_lower_its_fitness() {
    let cities = square();
    let crossing = vec![0, 2, 1, 3];
    let round = vec![0, 1, 2, 3];
    let before = measure_tour(&cities, &crossing);
    let after = measure_tour(&cities, &round);
    assert!(after < before);
    assert!(fitness_from_length(after) >= fitness_from_length(before));
    assert!(fitness_from_length(before) > 0);
}

#[test]
fn cities_are_spread_when_two_differ() {
    assert!(check_cities_spread(&square()));
    assert!(check_cities_spread(&vec![(1, 1), (1, 1), (1, 2)]));
    assert!(check_cities_spread(&vec![(1, 1), (2, 1)]));
}

#[test]
fn cities_are_not_spread_when_all_coincide() {
    assert!(!check_cities_spread(&vec![]));
    assert!(!check_cities_spread(&vec![(3, 3)]));
    assert!(!check_cities_spread(&vec![(3, 3), (3, 3), (3, 3)]));
}

#[test]
fn check_permutation_accepts_every_order() {
    assert!(check_permutation(&vec![], 0));
    assert!(check_permutation(&vec![0], 1));
    assert!(check_permutation(&vec![2, 0, 3, 1], 4));
}

#[test]
fn check_permutation_rejects_duplicates_and_omissions() {
    assert!(!check_permutation(&vec![0, 1, 1, 3], 4));
    assert!(!check_permutation(&vec![0, 1, 2], 4));
    assert!(!check_permutation(&vec![0, 1, 2, 3, 0], 4));
    assert!(!check_permutation(&vec![0, 1, 2, 4], 4));
    assert!(!check_permutation(&vec![0], 0));
}
