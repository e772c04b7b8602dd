//! Integer square roots and rounded division.

use vstd::prelude::*;

verus! {

/// `r` is the integer square root of `x`: the largest natural number whose
/// square does not exceed `x`.
pub open spec fn is_floor_sqrt(x: nat, r: nat) -> bool {
    r * r <= x < (r + 1) * (r + 1)
}

/// The integer square root of `x`.
pub open spec fn floor_sqrt(x: nat) -> nat {
    choose|r: nat| is_floor_sqrt(x, r)
}

/// `n / d`, rounded up, for positive `n` and `d`.
pub open spec fn div_ceil(n: nat, d: nat) -> nat {
    ((n - 1) / (d as int) + 1) as nat
}

/// The sum of the first `k` entries of `values`.
pub open spec fn prefix_sum(values: Seq<u64>, k: nat) -> nat
    decreases k,
{
    if k == 0 {
        0
    } else {
        prefix_sum(values, (k - 1) as nat) + values[k - 1] as nat
    }
}

/// The sum of all entries of `values`.
pub open spec fn sum(values: Seq<u64>) -> nat {
    prefix_sum(values, values.len())
}

/// A sum of `k` entries of 64 bits is at most `k` times the greatest such
/// value, and it does not shrink as `k` grows.
pub proof fn lemma_prefix_sum_bounds(values: Seq<u64>, j: nat, k: nat)
    requires
        j <= k <= values.len(),
    ensures
        prefix_sum(values, j) <= prefix_sum(values, k) <= k * u64::MAX,
    decreases k,
{
    if k > 0 {
        if j < k {
            lemma_prefix_sum_bounds(values, j, (k - 1) as nat);
        } else {
            lemma_prefix_sum_bounds(values, (k - 1) as nat, (k - 1) as nat);
        }
    }
}

/// A sum is no smaller than any one of its terms.
pub proof fn lemma_sum_covers_term(values: Seq<u64>, i: int)
    requires
        0 <= i < values.len(),
    ensures
        values[i] <= sum(values),
{
    lemma_prefix_sum_bounds(values, (i + 1) as nat, values.len());
}

proof fn lemma_square_monotonic(a: nat, b: nat)
    requires
        a <= b,
    ensures
        a * a <= b * b,
{
    assert(a * a <= b * b) by (nonlinear_arith)
        requires
            a <= b,
    ;
}

/// Every natural number has an integer square root.
pub proof fn lemma_floor_sqrt_exists(x: nat)
    ensures
        exists|r: nat| is_floor_sqrt(x, r),
    decreases x,
{
    if x == 0 {
        assert(is_floor_sqrt(0, 0)) by (nonlinear_arith);
    } else {
        lemma_floor_sqrt_exists((x - 1) as nat);
        let r = floor_sqrt((x - 1) as nat);
        if (r + 1) * (r + 1) <= x {
            assert((r + 1) * (r + 1) < (r + 2) * (r + 2)) by (nonlinear_arith);
            assert(is_floor_sqrt(x, r + 1));
        } else {
            assert(is_floor_sqrt(x, r));
        }
    }
}

/// A number has only one integer square root.
pub proof fn lemma_floor_sqrt_unique(x: nat, r1: nat, r2: nat)
    requires
        is_floor_sqrt(x, r1),
        is_floor_sqrt(x, r2),
    ensures
        r1 == r2,
{
    if r1 < r2 {
        lemma_square_monotonic(r1 + 1, r2);
    } else if r2 < r1 {
        lemma_square_monotonic(r2 + 1, r1);
    }
}

/// Whatever meets the two bounds is the integer square root.
pub proof fn lemma_floor_sqrt_is(x: nat, r: nat)
    requires
        is_floor_sqrt(x, r),
    ensures
        floor_sqrt(x) == r,
{
    lemma_floor_sqrt_unique(x, floor_sqrt(x), r);
}

/// The integer square root meets its two bounds.
pub proof fn lemma_floor_sqrt_bounds(x: nat)
    ensures
        is_floor_sqrt(x, floor_sqrt(x)),
{
    lemma_floor_sqrt_exists(x);
}

/// A larger number has no smaller integer square root.
pub proof fn lemma_floor_sqrt_monotonic(x: nat, y: nat)
    requires
        x <= y,
    ensures
        floor_sqrt(x) <= floor_sqrt(y),
{
    lemma_floor_sqrt_bounds(x);
    lemma_floor_sqrt_bounds(y);
    let rx = floor_sqrt(x);
    let ry = floor_sqrt(y);
    if ry < rx {
        lemma_square_monotonic(ry + 1, rx);
    }
}

/// Rounding up never gives zero, and a larger divisor gives no larger
/// quotient.
pub proof fn lemma_div_ceil_properties(n: nat, d1: nat, d2: nat)
    requires
        0 < n,
        0 < d1 <= d2,
    ensures
        0 < div_ceil(n, d2) <= div_ceil(n, d1) <= n,
{
    vstd::arithmetic::div_mod::lemma_div_is_ordered_by_denominator(
        n - 1,
        d1 as int,
        d2 as int,
    );
    vstd::arithmetic::div_mod::lemma_div_pos_is_pos(n - 1, d2 as int);
    vstd::arithmetic::div_mod::lemma_div_is_ordered_by_denominator(n - 1, 1, d1 as int);
}

/// Computes the integer square root by bisection.
pub fn integer_sqrt(x: u128) -> (r: u64)
    ensures
        r == floor_sqrt(x as nat),
{
    let mut lo: u128 = 0;
    let mut hi: u128 = 0x1_0000_0000_0000_0000;
    assert(x < hi * hi) by (nonlinear_arith)
        requires
            hi == 0x1_0000_0000_0000_0000,
            x <= u128::MAX,
    ;
    while hi - lo > 1
        invariant
            lo < hi <= 0x1_0000_0000_0000_0000,
            lo * lo <= x < hi * hi,
        decreases hi - lo,
    {
        let mid: u128 = lo + (hi - lo) / 2;
        assert(mid * mid <= u128::MAX) by (nonlinear_arith)
            requires
                mid < 0x1_0000_0000_0000_0000,
        ;
        if mid * mid <= x {
            lo = mid;
        } else {
            hi = mid;
        }
    }
    proof {
        assert(hi == lo + 1);
        lemma_floor_sqrt_is(x as nat, lo as nat);
    }
    lo as u64
}

} // verus!
