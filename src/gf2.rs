use vstd::prelude::*;

verus! {

/// An element of the two-element field.
#[derive(Clone, Copy, Debug, PartialEq, Eq, Structural)]
pub enum GF2 {
    B0,
    B1,
}

impl GF2 {
    /// The element as a boolean: `B1` is `true`.
    pub open spec fn is_one(self) -> bool {
        self == GF2::B1
    }

    /// Field addition (XOR).
    pub fn add(self, other: GF2) -> (r: GF2)
        ensures
            r.is_one() == (self.is_one() != other.is_one()),
    {
        if self == other {
            GF2::B0
        } else {
            GF2::B1
        }
    }
}

} // verus!
