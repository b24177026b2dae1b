//! Exact probabilities whose denominator is a power of six.
use crate::bignat::BigNat;
use vstd::prelude::*;

verus! {

/// The probability `numerator / 6^exponent`.
pub struct Probability {
    pub numerator: BigNat,
    pub exponent: u64,
}

impl Probability {
    /// Certainty: one over six to the power zero.
    pub fn one() -> (r: Probability)
        ensures
            r.numerator@ == 1,
            r.exponent == 0,
    {
        Probability { numerator: BigNat::from_u64(1), exponent: 0 }
    }

    /// Another probability with the same numerator and exponent.
    pub fn copy(&self) -> (r: Probability)
        ensures
            r.numerator@ == self.numerator@,
            r.exponent == self.exponent,
    {
        Probability { numerator: self.numerator.copy(), exponent: self.exponent }
    }
}

} // verus!
