//! The roulette wheel: a draw among individuals in which each has a chance
//! in proportion to its fitness.
//!
//! The wheel is a table of running totals of the fitness values. A ticket is
//! a number below the last total; it falls to the first individual whose
//! running total exceeds it. So individual `i` gets the tickets from the
//! total before it up to its own total: as many as its fitness.

use crate::arithmetic::{lemma_prefix_sum_bounds, prefix_sum, sum};
use vstd::prelude::*;

verus! {

/// `table` holds the running totals of `fitness`.
pub open spec fn is_wheel(table: Seq<u128>, fitness: Seq<u64>) -> bool {
    &&& table.len() == fitness.len()
    &&& forall|i: int|
        0 <= i < table.len() ==> (#[trigger] table[i]) == prefix_sum(fitness, (i + 1) as nat)
}

/// The entries of `table` never fall.
pub open spec fn is_rising(table: Seq<u128>) -> bool {
    forall|i: int, j: int| 0 <= i <= j < table.len() ==> table[i] <= table[j]
}

/// `i` is the first position of `table` whose entry exceeds `ticket`.
pub open spec fn is_bucket(table: Seq<u128>, ticket: u128, i: int) -> bool {
    &&& 0 <= i < table.len()
    &&& table[i] > ticket
    &&& forall|j: int| 0 <= j < i ==> (#[trigger] table[j]) <= ticket
}

/// Running totals never fall.
pub proof fn lemma_wheel_is_rising(table: Seq<u128>, fitness: Seq<u64>)
    requires
        is_wheel(table, fitness),
    ensures
        is_rising(table),
{
    assert forall|i: int, j: int| 0 <= i <= j < table.len() implies table[i] <= table[j] by {
        lemma_prefix_sum_bounds(fitness, (i + 1) as nat, (j + 1) as nat);
    }
}

/// A ticket falls to individual `i` exactly if it lies between the total of
/// the individuals before `i` and that total plus the fitness of `i`: each
/// individual gets as many tickets as its fitness.
pub proof fn lemma_bucket_is_proportional(
    table: Seq<u128>,
    fitness: Seq<u64>,
    ticket: u128,
    i: int,
)
    requires
        is_wheel(table, fitness),
        0 <= i < fitness.len(),
    ensures
        is_bucket(table, ticket, i) <==> prefix_sum(fitness, i as nat) <= ticket < prefix_sum(
            fitness,
            i as nat,
        ) + fitness[i],
{
    lemma_wheel_is_rising(table, fitness);
    assert(table[i] == prefix_sum(fitness, (i + 1) as nat));
    if i > 0 {
        assert(table[i - 1] == prefix_sum(fitness, i as nat));
    }
    if prefix_sum(fitness, i as nat) <= ticket < prefix_sum(fitness, i as nat) + fitness[i] {
        assert forall|j: int| 0 <= j < i implies (#[trigger] table[j]) <= ticket by {
            assert(table[j] <= table[i - 1]);
        }
    }
}

/// A ticket falls to one individual only.
pub proof fn lemma_bucket_unique(table: Seq<u128>, ticket: u128, i: int, j: int)
    requires
        is_bucket(table, ticket, i),
        is_bucket(table, ticket, j),
    ensures
        i == j,
{
    if i < j {
        assert(table[i] <= ticket);
    } else if j < i {
        assert(table[j] <= ticket);
    }
}

/// The running totals of `fitness`.
pub fn build_wheel(fitness: &Vec<u64>) -> (table: Vec<u128>)
    ensures
        is_wheel(table@, fitness@),
        is_rising(table@),
        fitness.len() > 0 ==> table[fitness.len() - 1] == sum(fitness@),
{
    let mut table: Vec<u128> = Vec::new();
    let mut running: u128 = 0;
    let mut i: usize = 0;
    while i < fitness.len()
        invariant
            i <= fitness.len(),
            table.len() == i,
            running == prefix_sum(fitness@, i as nat),
            forall|k: int|
                0 <= k < i ==> (#[trigger] table[k]) == prefix_sum(fitness@, (k + 1) as nat),
        decreases fitness.len() - i,
    {
        proof {
            lemma_prefix_sum_bounds(fitness@, i as nat, i as nat);
        }
        running = running + fitness[i] as u128;
        table.push(running);
        i += 1;
    }
    proof {
        lemma_wheel_is_rising(table@, fitness@);
    }
    table
}

/// The individual to which `ticket` falls, found by bisection.
pub fn locate(table: &Vec<u128>, ticket: u128) -> (i: usize)
    requires
        table.len() > 0,
        is_rising(table@),
        ticket < table[table.len() - 1],
    ensures
        is_bucket(table@, ticket, i as int),
{
    let mut lo: usize = 0;
    let mut hi: usize = table.len() - 1;
    while lo < hi
        invariant
            lo <= hi < table.len(),
            is_rising(table@),
            table[hi as int] > ticket,
            forall|j: int| 0 <= j < lo ==> (#[trigger] table[j]) <= ticket,
        decreases hi - lo,
    {
        let mid = lo + (hi - lo) / 2;
        if table[mid] > ticket {
            hi = mid;
        } else {
            assert forall|j: int| 0 <= j < mid + 1 implies (#[trigger] table[j]) <= ticket by {
                assert(table[j] <= table[mid as int]);
            }
            lo = mid + 1;
        }
    }
    lo
}

} // verus!
