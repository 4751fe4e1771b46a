//! Exact relevance scores.
//!
//! A score is kept as the integer ratio `num / den` and is never divided
//! out: the similarity threshold, the ranking order and the equal-share
//! property of the prefix scorer are all stated and decided over the pair,
//! so nothing is lost to rounding.  Callers that need a plain number divide
//! at the very edge, outside the verified core.

use vstd::prelude::*;

verus! {

/// The ratio `num / den`.  A score with `den == 0` is undefined (it arises
/// as the ratio 0/0 of an empty bigram pool); an undefined score fails the
/// similarity threshold and ranks as tied with every other score.
#[derive(Clone, Copy, PartialEq, Eq, Structural, Debug)]
pub struct Score {
    pub num: u64,
    pub den: u64,
}

impl Score {
    /// Defined and strictly above one tenth: the cut below which similarity
    /// candidates are discarded.
    pub open spec fn exceeds_tenth(self) -> bool {
        self.den > 0 && 10 * self.num as int > self.den as int
    }

    /// The larger of two scores; an undefined score loses to anything.
    pub open spec fn spec_max(self, other: Score) -> Score {
        if self.den == 0 {
            other
        } else if other.den == 0 {
            self
        } else if (self.num as int) * (other.den as int) >= (other.num as int) * (
        self.den as int) {
            self
        } else {
            other
        }
    }

    pub fn above_tenth(&self) -> (r: bool)
        ensures
            r == self.exceeds_tenth(),
    {
        self.den > 0 && 10u128 * (self.num as u128) > (self.den as u128)
    }
}

/// The product of two 64-bit values fits in 128 bits.
pub proof fn lemma_cross_product_fits(a: u64, b: u64)
    ensures
        (a as int) * (b as int) <= (u64::MAX as int) * (u64::MAX as int),
        (a as int) * (b as int) <= u128::MAX as int,
{
    vstd::arithmetic::mul::lemma_mul_upper_bound(
        a as int,
        u64::MAX as int,
        b as int,
        u64::MAX as int,
    );
}

impl Score {
    pub fn max_with(self, other: Score) -> (r: Score)
        ensures
            r == self.spec_max(other),
    {
        if self.den == 0 {
            other
        } else if other.den == 0 {
            self
        } else {
            proof {
                lemma_cross_product_fits(self.num, other.den);
                lemma_cross_product_fits(other.num, self.den);
            }
            let x: u128 = (self.num as u128) * (other.den as u128);
            let y: u128 = (other.num as u128) * (self.den as u128);
            if x >= y {
                self
            } else {
                other
            }
        }
    }
}

} // verus!
