//! Mean and standard deviation of the fitness values of a population, in
//! whole numbers.
//!
//! The mean is rounded down. The variance is the mean of the squared
//! deviations from that mean over the whole population, rounded down, and
//! the standard deviation is its integer square root.

use crate::arithmetic::{floor_sqrt, integer_sqrt, lemma_prefix_sum_bounds, prefix_sum, sum};
use vstd::arithmetic::div_mod::{
    lemma_div_is_ordered, lemma_div_multiples_vanish, lemma_fundamental_div_mod,
    lemma_fundamental_div_mod_converse,
};
use vstd::prelude::*;

verus! {

/// The mean of `values`, rounded down.
pub open spec fn mean(values: Seq<u64>) -> nat {
    sum(values) / values.len()
}

/// The sum, over the first `k` entries of `values`, of the squared distance
/// to `center`.
pub open spec fn squared_deviations(values: Seq<u64>, center: int, k: nat) -> nat
    decreases k,
{
    if k == 0 {
        0
    } else {
        squared_deviations(values, center, (k - 1) as nat) + ((values[k - 1] - center) * (values[k
            - 1] - center)) as nat
    }
}

/// The variance of `values` about their mean, rounded down.
pub open spec fn variance(values: Seq<u64>) -> nat {
    squared_deviations(values, mean(values) as int, values.len()) / values.len()
}

/// The standard deviation of `values`, rounded down.
pub open spec fn standard_deviation(values: Seq<u64>) -> nat {
    floor_sqrt(variance(values))
}

/// The mean of equal values is that value, and they do not deviate from it.
pub proof fn lemma_uniform_statistics(values: Seq<u64>, v: u64)
    requires
        values.len() > 0,
        forall|i: int| 0 <= i < values.len() ==> values[i] == v,
    ensures
        mean(values) == v,
        variance(values) == 0,
        standard_deviation(values) == 0,
{
    lemma_uniform_sums(values, v, values.len());
    let n = values.len() as int;
    lemma_div_multiples_vanish(v as int, n);
    assert(n * v == v * n) by (nonlinear_arith);
    assert(0int / n == 0) by (nonlinear_arith)
        requires
            n > 0,
    ;
    assert(crate::arithmetic::is_floor_sqrt(0, 0)) by (nonlinear_arith);
    crate::arithmetic::lemma_floor_sqrt_is(0, 0);
}

proof fn lemma_uniform_sums(values: Seq<u64>, v: u64, k: nat)
    requires
        k <= values.len(),
        forall|i: int| 0 <= i < values.len() ==> values[i] == v,
    ensures
        prefix_sum(values, k) == k * v,
        squared_deviations(values, v as int, k) == 0,
    decreases k,
{
    if k > 0 {
        lemma_uniform_sums(values, v, (k - 1) as nat);
        assert((k - 1) * v + v == k * v) by (nonlinear_arith);
        let d = values[k - 1] - v as int;
        assert(d * d == 0) by (nonlinear_arith)
            requires
                d == 0,
        ;
    } else {
        assert(0 * v == 0) by (nonlinear_arith);
    }
}

/// The mean of `values`, rounded down.
pub fn mean_of(values: &Vec<u64>) -> (m: u64)
    requires
        values.len() > 0,
    ensures
        m == mean(values@),
{
    let n = values.len();
    let mut total: u128 = 0;
    let mut i: usize = 0;
    while i < n
        invariant
            i <= n,
            n == values.len(),
            total == prefix_sum(values@, i as nat),
        decreases n - i,
    {
        proof {
            lemma_prefix_sum_bounds(values@, i as nat, i as nat);
        }
        total = total + values[i] as u128;
        i += 1;
    }
    proof {
        lemma_prefix_sum_bounds(values@, n as nat, n as nat);
        lemma_div_is_ordered(total as int, n * u64::MAX, n as int);
        lemma_div_multiples_vanish(u64::MAX as int, n as int);
        assert(n * u64::MAX == u64::MAX * n) by (nonlinear_arith);
    }
    (total / (n as u128)) as u64
}

/// The variance of `values` about `center`, which is their mean, rounded
/// down.
fn variance_about(values: &Vec<u64>, center: u64) -> (v: u128)
    requires
        values.len() > 0,
        center == mean(values@),
    ensures
        v == variance(values@),
{
    let n = values.len();
    let ghost limit: int = u64::MAX * u64::MAX;
    let mut quotient: u128 = 0;
    let mut rest: u128 = 0;
    let mut i: usize = 0;
    while i < n
        invariant
            i <= n,
            n == values.len(),
            n > 0,
            limit == u64::MAX * u64::MAX,
            rest < n,
            quotient * n + rest == squared_deviations(values@, center as int, i as nat),
            squared_deviations(values@, center as int, i as nat) <= i * limit,
        decreases n - i,
    {
        let x = values[i];
        let d: u128 = if x >= center { (x - center) as u128 } else { (center - x) as u128 };
        proof {
            let s = x as int - center as int;
            assert(d * d == s * s) by (nonlinear_arith)
                requires
                    d == s || d == -s,
            ;
            assert(d * d <= limit) by (nonlinear_arith)
                requires
                    0 <= d <= u64::MAX,
                    limit == u64::MAX * u64::MAX,
            ;
        }
        let square: u128 = d * d;
        let a: u128 = square / (n as u128);
        let b: u128 = square % (n as u128);
        proof {
            lemma_fundamental_div_mod(square as int, n as int);
            let q = quotient as int;
            let m = n as int;
            let total = squared_deviations(values@, center as int, (i + 1) as nat) as int;
            assert(total == q * m + rest + (m * a + b));
            assert(total == (q + a) * m + (rest + b)) by (nonlinear_arith)
                requires
                    total == q * m + rest + (m * a + b),
            ;
            assert(total <= (i + 1) * limit) by (nonlinear_arith)
                requires
                    total == squared_deviations(values@, center as int, i as nat) + square,
                    squared_deviations(values@, center as int, i as nat) <= i * limit,
                    square <= limit,
            ;
            assert(q + a <= limit) by (nonlinear_arith)
                requires
                    total == (q + a) * m + (rest + b),
                    total <= (i + 1) * limit,
                    i + 1 <= m,
                    0 <= rest + b,
                    0 < m,
                    0 <= limit,
            ;
            if rest + b >= m {
                assert(total == (q + a + 1) * m + (rest + b - m)) by (nonlinear_arith)
                    requires
                        total == (q + a) * m + (rest + b),
                ;
                assert(q + a + 1 <= limit) by (nonlinear_arith)
                    requires
                        total == (q + a + 1) * m + (rest + b - m),
                        total <= (i + 1) * limit,
                        i + 1 <= m,
                        0 <= rest + b - m,
                        0 < m,
                        0 <= limit,
                ;
            }
        }
        quotient = quotient + a;
        rest = rest + b;
        if rest >= n as u128 {
            quotient = quotient + 1;
            rest = rest - n as u128;
        }
        i += 1;
    }
    proof {
        lemma_fundamental_div_mod_converse(
            squared_deviations(values@, center as int, n as nat) as int,
            n as int,
            quotient as int,
            rest as int,
        );
    }
    quotient
}

/// The standard deviation and the mean of `values`, both rounded down.
pub fn diversity(values: &Vec<u64>) -> (r: (u64, u64))
    requires
        values.len() > 0,
    ensures
        r.0 == standard_deviation(values@),
        r.1 == mean(values@),
{
    let m = mean_of(values);
    let v = variance_about(values, m);
    (integer_sqrt(v), m)
}

} // verus!
