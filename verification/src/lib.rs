//! A genetic algorithm for the travelling salesman problem, in integer
//! arithmetic throughout.
//!
//! Cities are points with `u32` coordinates. A candidate tour is a
//! permutation of the city indices; its fitness is 1000 divided by the length
//! of the closed tour, kept in millionths. The engine evolves a population of
//! fixed size by selection, crossover, mutation and elitism. Every random
//! draw comes from a generator that the caller passes in.

pub mod arithmetic;
pub mod candidate;
pub mod crossover;
pub mod fraction;
pub mod genetic_algorithm;
pub mod permutation;
pub mod random;
pub mod ranking;
pub mod roulette;
pub mod selection;
pub mod statistics;
pub mod tour;

