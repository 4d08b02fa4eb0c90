//! Exact scores: fractions of the best possible value.
use vstd::prelude::*;

verus! {

/// A score held exactly as the fraction `num / den` (with `den > 0`). As a
/// percentage it reads `100 * num / den`.
#[derive(Clone, Copy, Debug, PartialEq, Eq, Structural)]
pub struct Score {
    pub num: u64,
    pub den: u64,
}

impl Score {
    pub open spec fn wf(self) -> bool {
        self.den > 0
    }

    /// `self` is strictly greater than `other`.
    pub open spec fn beats(self, other: Score) -> bool {
        self.num as int * other.den as int > other.num as int * self.den as int
    }

    pub open spec fn zero_spec() -> Score {
        Score { num: 0, den: 1 }
    }

    /// The score 0.
    pub fn zero() -> (r: Score)
        ensures
            r == (Score { num: 0, den: 1 }),
    {
        Score { num: 0, den: 1 }
    }

    /// Whether `self` is strictly greater than `other`.
    pub fn better_than(&self, other: &Score) -> (r: bool)
        ensures
            r == self.beats(*other),
    {
        let a = self.num as u128;
        let b = other.den as u128;
        let c = other.num as u128;
        let d = self.den as u128;
        proof {
            assert(a * b <= 0xffff_ffff_ffff_ffffu128 * 0xffff_ffff_ffff_ffffu128) by (nonlinear_arith)
                requires
                    a <= 0xffff_ffff_ffff_ffffu128,
                    b <= 0xffff_ffff_ffff_ffffu128,
            ;
            assert(c * d <= 0xffff_ffff_ffff_ffffu128 * 0xffff_ffff_ffff_ffffu128) by (nonlinear_arith)
                requires
                    c <= 0xffff_ffff_ffff_ffffu128,
                    d <= 0xffff_ffff_ffff_ffffu128,
            ;
        }
        a * b > c * d
    }
}

} // verus!
