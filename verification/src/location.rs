//! Bit locations within a template, and the overflow policies used when a
//! value is placed into one.

use vstd::prelude::*;
use vstd::string::StrSliceExecFns;

use crate::bits::low_mask;
use crate::error::TemplateError;
use crate::name::Name;
use crate::types::Type;

verus! {

/// The location of a bit field segment within a template: a contiguous run
/// of `width` bits whose lowest bit sits `mask_offset` bits above the
/// template's least significant bit.
#[derive(PartialEq, Eq, Structural, Clone, Copy, Debug)]
pub struct Location {
    /// How wide the location is.
    pub width: u8,
    /// How far from the low (right-most) bit of the template the low bit of
    /// this location is.
    pub mask_offset: u8,
}

impl Location {
    /// A valid location is at least one bit wide and lies inside a
    /// 128-bit template.
    pub open spec fn wf(self) -> bool {
        1 <= self.width && self.mask_offset + self.width <= 128
    }

    /// How wide the location is.
    pub fn width(self) -> (r: u8)
        ensures
            r == self.width,
    {
        self.width
    }

    /// Where the location starts within the template.
    pub fn mask_offset(self) -> (r: u8)
        ensures
            r == self.mask_offset,
    {
        self.mask_offset
    }

    /// The location's mask before shifting: its lowest `width` bits set.
    pub open spec fn spec_unshifted_mask(self) -> u128 {
        low_mask(self.width as u128)
    }

    /// The location's mask within the template: ones inside the location,
    /// zeroes outside it.
    pub open spec fn spec_mask(self) -> u128 {
        self.spec_unshifted_mask() << (self.mask_offset as u128)
    }

    /// Convert the location to a bit mask, but starting at the low bit of
    /// the template.
    #[verifier::when_used_as_spec(spec_unshifted_mask)]
    pub fn to_unshifted_mask(self) -> (r: u128)
        ensures
            r == self.spec_unshifted_mask(),
    {
        if self.width >= 128 {
            u128::MAX
        } else {
            proof {
                let w = self.width as u128;
                assert(1u128 << w >= 1) by (bit_vector)
                    requires
                        w < 128,
                ;
            }
            (1u128 << self.width) - 1
        }
    }

    /// Convert the location to a bit mask: ones within the location, zeroes
    /// without.
    #[verifier::when_used_as_spec(spec_mask)]
    pub fn to_mask(self) -> (r: u128)
        requires
            self.mask_offset < 128,
        ensures
            r == self.spec_mask(),
    {
        self.to_unshifted_mask() << self.mask_offset
    }
}

/// What behavior to use if a field value is too big for its template slot
/// when it is placed.
#[derive(PartialEq, Eq, Structural, Clone, Copy, Debug)]
pub enum OnOverflow {
    /// Remove the upper bits that do not fit in the template slot.
    Truncate,
    /// Fail if the value is too large for its slot.
    Panic,
    /// Let oversized values corrupt the bits above their slot.
    Corrupt,
    /// Set all bits of the slot to ones if the value is too large.
    Saturate,
}

impl OnOverflow {
    /// Convert a lower-case str into its corresponding policy.
    pub fn parse(text: &str) -> (r: Result<OnOverflow, TemplateError>)
        ensures
            r == if text@ == "truncate"@ {
                Ok::<OnOverflow, TemplateError>(OnOverflow::Truncate)
            } else if text@ == "panic"@ {
                Ok::<OnOverflow, TemplateError>(OnOverflow::Panic)
            } else if text@ == "corrupt"@ {
                Ok::<OnOverflow, TemplateError>(OnOverflow::Corrupt)
            } else if text@ == "saturate"@ {
                Ok::<OnOverflow, TemplateError>(OnOverflow::Saturate)
            } else {
                Err::<OnOverflow, TemplateError>(TemplateError::UnknownOverflowOption)
            },
    {
        if str_eq(text, "truncate") {
            Ok(OnOverflow::Truncate)
        } else if str_eq(text, "panic") {
            Ok(OnOverflow::Panic)
        } else if str_eq(text, "corrupt") {
            Ok(OnOverflow::Corrupt)
        } else if str_eq(text, "saturate") {
            Ok(OnOverflow::Saturate)
        } else {
            Err(TemplateError::UnknownOverflowOption)
        }
    }
}

/// Character-by-character string equality.
fn str_eq(a: &str, b: &str) -> (r: bool)
    ensures
        r == (a@ == b@),
{
    let a_len = a.unicode_len();
    let b_len = b.unicode_len();
    if a_len != b_len {
        return false;
    }
    let mut i: usize = 0;
    while i < a_len
        invariant
            i <= a_len,
            a_len == a@.len(),
            a_len == b@.len(),
            forall|j: int| 0 <= j < i ==> a@[j] == b@[j],
        decreases a_len - i,
    {
        if a.get_char(i) != b.get_char(i) {
            return false;
        }
        i = i + 1;
    }
    proof {
        assert(a@ =~= b@);
    }
    true
}

} // verus!
