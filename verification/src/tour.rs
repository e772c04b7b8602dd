//! Lengths of closed tours over cities with integer coordinates, and the
//! fitness that a length gives.
//!
//! A length is kept in millionths of a coordinate unit, each leg rounded
//! down. Fitness is 1000 divided by the length, kept in millionths and
//! rounded up, so that every tour of positive length has positive fitness.

use crate::arithmetic::{
    div_ceil, floor_sqrt, integer_sqrt, is_floor_sqrt, lemma_div_ceil_properties,
    lemma_floor_sqrt_is, lemma_floor_sqrt_monotonic,
};
use crate::permutation::{is_permutation, lemma_permutation_covers};
use vstd::prelude::*;

verus! {

/// How many units of length make one coordinate unit.
pub const DISTANCE_SCALE: u64 = 1_000_000;

/// The fitness of a tour of length 1: 1000, in millionths, times
/// `DISTANCE_SCALE`.
pub const FITNESS_NUMERATOR: u64 = 1_000_000_000_000_000;

/// The square of the Euclidean distance between two cities.
pub open spec fn squared_distance(a: (u32, u32), b: (u32, u32)) -> nat {
    let dx = a.0 as int - b.0 as int;
    let dy = a.1 as int - b.1 as int;
    (dx * dx + dy * dy) as nat
}

/// The Euclidean distance between two cities, in millionths, rounded down.
pub open spec fn edge_length(a: (u32, u32), b: (u32, u32)) -> nat {
    floor_sqrt(squared_distance(a, b) * 1_000_000_000_000)
}

/// The length of the first `legs` legs of the tour: from the city at
/// position `i` of the genome to the one at position `i + 1`.
pub open spec fn path_length(cities: Seq<(u32, u32)>, genome: Seq<usize>, legs: nat) -> nat
    decreases legs,
{
    if legs == 0 {
        0
    } else {
        path_length(cities, genome, (legs - 1) as nat) + edge_length(
            cities[genome[legs - 1] as int],
            cities[genome[legs as int] as int],
        )
    }
}

/// The length of the closed tour that visits the cities in the order of the
/// genome and returns from the last to the first.
pub open spec fn tour_length(cities: Seq<(u32, u32)>, genome: Seq<usize>) -> nat {
    if genome.len() == 0 {
        0
    } else {
        path_length(cities, genome, (genome.len() - 1) as nat) + edge_length(
            cities[genome.last() as int],
            cities[genome[0] as int],
        )
    }
}

/// The fitness of a tour of the given positive length.
pub open spec fn length_fitness(length: nat) -> nat {
    div_ceil(FITNESS_NUMERATOR as nat, length)
}

/// The fitness of the tour that the genome describes.
pub open spec fn tour_fitness(cities: Seq<(u32, u32)>, genome: Seq<usize>) -> nat {
    length_fitness(tour_length(cities, genome))
}

/// Two of the cities lie apart, so that no tour through all of them has
/// length zero.
pub open spec fn cities_spread(cities: Seq<(u32, u32)>) -> bool {
    exists|i: int, j: int| 0 <= i < j < cities.len() && cities[i] != cities[j]
}

/// Cities at different places are at least one coordinate unit apart.
pub proof fn lemma_edge_positive(a: (u32, u32), b: (u32, u32))
    requires
        a != b,
    ensures
        edge_length(a, b) >= DISTANCE_SCALE,
{
    let dx = a.0 as int - b.0 as int;
    let dy = a.1 as int - b.1 as int;
    assert(dx * dx + dy * dy >= 1) by (nonlinear_arith)
        requires
            dx != 0 || dy != 0,
    ;
    assert(is_floor_sqrt(1_000_000_000_000, 1_000_000)) by (nonlinear_arith);
    lemma_floor_sqrt_is(1_000_000_000_000, 1_000_000);
    lemma_floor_sqrt_monotonic(1_000_000_000_000, squared_distance(a, b) * 1_000_000_000_000);
}

proof fn lemma_edge_zero(a: (u32, u32), b: (u32, u32))
    requires
        edge_length(a, b) == 0,
    ensures
        a == b,
{
    if a != b {
        lemma_edge_positive(a, b);
    }
}

proof fn lemma_path_zero(cities: Seq<(u32, u32)>, genome: Seq<usize>, legs: nat)
    requires
        path_length(cities, genome, legs) == 0,
    ensures
        forall|i: int| 0 <= i <= legs ==> cities[#[trigger] genome[i] as int] == cities[genome[0] as int],
    decreases legs,
{
    if legs > 0 {
        lemma_path_zero(cities, genome, (legs - 1) as nat);
        lemma_edge_zero(cities[genome[legs - 1] as int], cities[genome[legs as int] as int]);
    }
}

/// A tour through all the cities has positive length as soon as two of the
/// cities lie apart.
pub proof fn lemma_tour_positive(cities: Seq<(u32, u32)>, genome: Seq<usize>)
    requires
        cities.len() <= usize::MAX,
        is_permutation(genome, cities.len()),
        cities_spread(cities),
    ensures
        tour_length(cities, genome) > 0,
{
    if tour_length(cities, genome) == 0 {
        lemma_path_zero(cities, genome, (genome.len() - 1) as nat);
        lemma_permutation_covers(genome, cities.len());
        let (i, j) = choose|i: int, j: int| 0 <= i < j < cities.len() && cities[i] != cities[j];
        assert(genome.contains(i as usize));
        assert(genome.contains(j as usize));
        let pi = choose|p: int| 0 <= p < genome.len() && genome[p] == i as usize;
        let pj = choose|p: int| 0 <= p < genome.len() && genome[p] == j as usize;
        assert(cities[genome[pi] as int] == cities[genome[0] as int]);
        assert(cities[genome[pj] as int] == cities[genome[0] as int]);
    }
}

/// A tour of positive length has positive fitness, and of two such tours the
/// shorter has no smaller fitness.
pub proof fn lemma_fitness_monotonic(shorter: nat, longer: nat)
    requires
        0 < shorter <= longer,
    ensures
        0 < length_fitness(longer) <= length_fitness(shorter) <= FITNESS_NUMERATOR,
{
    lemma_div_ceil_properties(FITNESS_NUMERATOR as nat, shorter, longer);
}

/// Of two orders of visiting the same cities, the one whose tour is no
/// longer has no smaller fitness, and both have positive fitness.
pub proof fn lemma_shorter_tour_is_fitter(
    cities: Seq<(u32, u32)>,
    before: Seq<usize>,
    after: Seq<usize>,
)
    requires
        0 < tour_length(cities, after) <= tour_length(cities, before),
    ensures
        0 < tour_fitness(cities, before) <= tour_fitness(cities, after),
{
    lemma_fitness_monotonic(tour_length(cities, after), tour_length(cities, before));
}

/// Tells whether two of the cities lie apart.
pub fn check_cities_spread(cities: &Vec<(u32, u32)>) -> (ok: bool)
    ensures
        ok == cities_spread(cities@),
{
    let mut i: usize = 1;
    while i < cities.len()
        invariant
            1 <= i,
            forall|k: int| 0 <= k < i && k < cities.len() ==> (#[trigger] cities[k]) == cities[0],
        decreases cities.len() - i,
    {
        if cities[i].0 != cities[0].0 || cities[i].1 != cities[0].1 {
            assert(0 <= 0 < (i as int) < cities@.len() && cities@[0] != cities@[i as int]);
            return true;
        }
        i += 1;
    }
    false
}

/// The distance between two cities, in millionths, rounded down.
pub fn edge(a: (u32, u32), b: (u32, u32)) -> (r: u64)
    ensures
        r == edge_length(a, b),
{
    let dx: u128 = if a.0 >= b.0 { (a.0 - b.0) as u128 } else { (b.0 - a.0) as u128 };
    let dy: u128 = if a.1 >= b.1 { (a.1 - b.1) as u128 } else { (b.1 - a.1) as u128 };
    proof {
        let sx = a.0 as int - b.0 as int;
        let sy = a.1 as int - b.1 as int;
        assert(dx * dx == sx * sx) by (nonlinear_arith)
            requires
                dx == sx || dx == -sx,
        ;
        assert(dy * dy == sy * sy) by (nonlinear_arith)
            requires
                dy == sy || dy == -sy,
        ;
        assert(dx * dx <= 0xffff_ffff * 0xffff_ffff) by (nonlinear_arith)
            requires
                dx <= 0xffff_ffff,
        ;
        assert(dy * dy <= 0xffff_ffff * 0xffff_ffff) by (nonlinear_arith)
            requires
                dy <= 0xffff_ffff,
        ;
    }
    let square: u128 = dx * dx + dy * dy;
    integer_sqrt(square * 1_000_000_000_000)
}

/// The length of the closed tour that the genome describes.
pub fn measure_tour(cities: &Vec<(u32, u32)>, genome: &Vec<usize>) -> (total: u128)
    requires
        genome.len() > 0,
        forall|i: int| 0 <= i < genome.len() ==> (#[trigger] genome[i]) < cities.len(),
    ensures
        total == tour_length(cities@, genome@),
{
    let n = genome.len();
    let mut total: u128 = 0;
    let mut k: usize = 0;
    while k < n - 1
        invariant
            n == genome.len(),
            n > 0,
            k <= n - 1,
            forall|i: int| 0 <= i < genome.len() ==> (#[trigger] genome[i]) < cities.len(),
            total == path_length(cities@, genome@, k as nat),
            total <= k * u64::MAX,
        decreases n - k,
    {
        let leg = edge(cities[genome[k]], cities[genome[k + 1]]);
        total = total + leg as u128;
        k += 1;
    }
    let closing = edge(cities[genome[n - 1]], cities[genome[0]]);
    total + closing as u128
}

/// The fitness of a tour of the given positive length.
pub fn fitness_from_length(length: u128) -> (f: u64)
    requires
        length > 0,
    ensures
        f == length_fitness(length as nat),
        0 < f <= FITNESS_NUMERATOR,
{
    proof {
        lemma_fitness_monotonic(length as nat, length as nat);
    }
    (((FITNESS_NUMERATOR - 1) as u128) / length + 1) as u64
}

} // verus!
