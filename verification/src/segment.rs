//! A portion of a field within a template.

use vstd::prelude::*;

use crate::bits::fits;
use crate::bits::low_mask;
use crate::location::Location;
use crate::types::Type;

verus! {

/// One slice of a field: a location within the source value, the type the
/// slice is computed in, and the offset at which the slice's bits are placed
/// in the field's own value.
#[derive(PartialEq, Eq, Structural, Clone, Copy, Debug)]
pub struct Segment {
    /// The value the slice's bits are taken from.
    pub input: u128,
    /// The type the slice's arithmetic is carried out in.
    pub t: Type,
    /// Where the slice's bits sit within the source value.
    pub location: Location,
    /// Where the slice's bits sit within the field's value.
    pub offset: u8,
}

impl Segment {
    /// The segment's location and offset lie inside a 128-bit value.
    pub open spec fn bounds(self) -> bool {
        &&& self.location.wf()
        &&& self.t.wf()
        &&& self.offset + self.location.width <= 128
    }

    /// The segment can be evaluated without losing bits: its input fits the
    /// carrying type and its output slice lies inside that type.
    pub open spec fn evaluable(self) -> bool {
        &&& self.bounds()
        &&& fits(self.input, self.t.spec_bit_count() as u128)
        &&& self.offset + self.location.width <= self.t.spec_bit_count()
    }

    /// The segment's value: the input's bits at the segment's location,
    /// moved so that the location's lowest bit lands at the segment's
    /// output offset.
    pub open spec fn spec_value(self) -> u128 {
        let masked = self.input & self.location.spec_mask();
        if self.location.mask_offset >= self.offset {
            masked >> ((self.location.mask_offset - self.offset) as u128)
        } else {
            masked << ((self.offset - self.location.mask_offset) as u128)
        }
    }

    /// Create a new segment.
    pub fn new(input: u128, t: Type, location: Location, offset: u8) -> (r: Segment)
        ensures
            r == (Segment { input, t, location, offset }),
    {
        Segment { input, t, location, offset }
    }

    /// Move this segment further within its field's value.
    pub fn set_output_offset(&mut self, output_offset: u8) -> (r: Segment)
        requires
            old(self).offset + output_offset <= 128,
        ensures
            *final(self) == (Segment {
                offset: (old(self).offset + output_offset) as u8,
                ..*old(self)
            }),
            r == *final(self),
    {
        self.offset = self.offset + output_offset;
        *self
    }

    /// Raise the segment's carrying type if the new type is wider, without
    /// changing its value.
    pub fn widen(&mut self, new_type: Type) -> (r: Segment)
        ensures
            *final(self) == (Segment {
                t: if new_type.spec_wider_than(old(self).t) {
                    new_type
                } else {
                    old(self).t
                },
                ..*old(self)
            }),
            r == *final(self),
    {
        if new_type.wider_than(self.t) {
            self.t = new_type;
        }
        *self
    }

    /// Evaluate the segment: mask the input to the segment's location, then
    /// shift the slice from the location to the output offset.
    pub fn to_value(&self) -> (r: u128)
        requires
            self.evaluable(),
        ensures
            r == self.spec_value(),
    {
        let masked = self.input & self.location.to_mask();
        if self.location.mask_offset >= self.offset {
            masked >> (self.location.mask_offset - self.offset)
        } else {
            masked << (self.offset - self.location.mask_offset)
        }
    }

    /// The width of the segment.
    pub fn width(&self) -> (r: u8)
        ensures
            r == self.location.width,
    {
        self.location.width()
    }
}

} // verus!
