use vstd::prelude::*;

verus! {

/// An exact fraction `num / den` of two machine integers.
#[derive(Clone, Copy, Debug, PartialEq, Eq, Structural)]
pub struct Fraction {
    pub num: u32,
    pub den: u32,
}

impl Fraction {
    /// The fraction denotes a number in the closed interval from 0 to 1.
    pub open spec fn in_unit_interval(self) -> bool {
        0 < self.den && self.num <= self.den
    }

    /// The fraction denotes a number that is at least 0 and strictly below 1.
    pub open spec fn below_one(self) -> bool {
        self.num < self.den
    }
}

} // verus!
