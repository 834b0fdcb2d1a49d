//! The numeric base that template text is written in.

use vstd::prelude::*;

verus! {

/// The numeric base of a template string: each digit of the template stands
/// for one bit (binary) or four bits (hexadecimal).
#[derive(PartialEq, Eq, Structural, Clone, Copy, Debug)]
pub enum Base {
    Binary,
    Hexadecimal,
}

impl Base {
    /// How many bits are needed to represent a single digit of this Base.
    pub open spec fn spec_bits_per_digit(self) -> usize {
        match self {
            Base::Binary => 1,
            Base::Hexadecimal => 4,
        }
    }

    /// How many bits are needed to represent a single digit of this Base.
    #[verifier::when_used_as_spec(spec_bits_per_digit)]
    pub fn bits_per_digit(self) -> (r: usize)
        ensures
            r == self.spec_bits_per_digit(),
    {
        match self {
            Base::Binary => 1,
            Base::Hexadecimal => 4,
        }
    }
}

} // verus!
