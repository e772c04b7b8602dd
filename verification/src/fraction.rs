//! Probabilities and shares, as ratios of two integers.

use vstd::prelude::*;

verus! {

/// The ratio `numerator / denominator`. It stands for a probability or for
/// a share of a whole where it is valid: between 0 and 1.
#[derive(Clone, Copy, Debug)]
pub struct Fraction {
    pub numerator: u32,
    pub denominator: u32,
}

impl Fraction {
    /// The ratio lies between 0 and 1.
    pub open spec fn valid(self) -> bool {
        0 < self.denominator && self.numerator <= self.denominator
    }

    /// This share of `count` things, rounded down.
    pub open spec fn share_of(self, count: nat) -> nat {
        ((count * self.numerator) / (self.denominator as int)) as nat
    }

    /// The ratio of the two numbers, if it lies between 0 and 1.
    pub fn new(numerator: u32, denominator: u32) -> (r: Option<Fraction>)
        ensures
            r is Some <==> 0 < denominator && numerator <= denominator,
            r matches Some(f) ==> f.numerator == numerator && f.denominator == denominator,
    {
        if denominator == 0 || numerator > denominator {
            None
        } else {
            Some(Fraction { numerator, denominator })
        }
    }

    /// Tells whether the ratio lies between 0 and 1.
    pub fn is_valid(&self) -> (ok: bool)
        ensures
            ok == self.valid(),
    {
        self.denominator > 0 && self.numerator <= self.denominator
    }

    /// This share of `count` things, rounded down.
    pub fn scale(&self, count: usize) -> (r: usize)
        requires
            self.valid(),
        ensures
            r == self.share_of(count as nat),
            r <= count,
    {
        assert(count * self.numerator <= usize::MAX * u32::MAX) by (nonlinear_arith)
            requires
                count <= usize::MAX,
                self.numerator <= u32::MAX,
        ;
        let product: u128 = (count as u128) * (self.numerator as u128);
        let share: u128 = product / (self.denominator as u128);
        proof {
            lemma_share_bounded(*self, count as nat);
        }
        share as usize
    }
}

/// A share of a whole is no more than the whole, and the share 1 is all of
/// it.
pub proof fn lemma_share_bounded(f: Fraction, count: nat)
    requires
        f.valid(),
    ensures
        f.share_of(count) <= count,
        f.numerator == f.denominator ==> f.share_of(count) == count,
        f.numerator == 0 ==> f.share_of(count) == 0,
{
    let n = f.numerator as nat;
    let d = f.denominator as nat;
    assert(count * n <= count * d) by (nonlinear_arith)
        requires
            n <= d,
    ;
    vstd::arithmetic::div_mod::lemma_div_is_ordered((count * n) as int, (count * d) as int, d as int);
    vstd::arithmetic::div_mod::lemma_div_multiples_vanish(count as int, d as int);
    assert(count * d == d * count) by (nonlinear_arith);
    assert(count * 0 == 0) by (nonlinear_arith);
}

} // verus!
