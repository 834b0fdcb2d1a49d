//! Result types for fields and templates.

use vstd::prelude::*;

use crate::error::TemplateError;

verus! {

/// Whether fields are typed with built-in integer widths only, or with
/// exact-width integers of any bit count up to 128.
#[derive(PartialEq, Eq, Structural, Clone, Copy, Debug)]
pub enum Precision {
    Standard,
    Ux,
}

/// A bit count for an integer type: anything from 1 to 128.
#[derive(PartialEq, Eq, Structural, Clone, Copy, Debug)]
pub struct BitCount {
    pub count: u8,
}

impl BitCount {
    /// A valid bit count is between 1 and 128.
    pub open spec fn wf(self) -> bool {
        1 <= self.count <= 128
    }

    /// Create a new bit count, failing if 0 or more than 128 is provided.
    pub fn new(count: u8) -> (r: Result<BitCount, TemplateError>)
        ensures
            (1 <= count <= 128) <==> r is Ok,
            r matches Ok(b) ==> b == (BitCount { count }) && b.wf(),
            r matches Err(e) ==> e == (TemplateError::InvalidBitCount { count: count as usize }),
    {
        if 1 <= count && count <= 128 {
            Ok(BitCount { count })
        } else {
            Err(TemplateError::InvalidBitCount { count: count as usize })
        }
    }
}

/// The type carried by a field, a field segment, or a template: a boolean or
/// an unsigned integer of 1 to 128 bits.
#[derive(PartialEq, Eq, Structural, Clone, Copy, Debug)]
pub enum Type {
    Bool,
    Num(BitCount),
}

/// The smallest built-in unsigned integer width that holds `w` bits.
pub open spec fn spec_standard_width(w: u8) -> u8 {
    if w <= 8 {
        8
    } else if w <= 16 {
        16
    } else if w <= 32 {
        32
    } else if w <= 64 {
        64
    } else {
        128
    }
}

impl Type {
    /// A valid type has a bit count between 1 and 128.
    pub open spec fn wf(self) -> bool {
        match self {
            Type::Bool => true,
            Type::Num(b) => b.wf(),
        }
    }

    /// How many bits the type corresponds to.
    pub open spec fn spec_bit_count(self) -> u8 {
        match self {
            Type::Bool => 1,
            Type::Num(b) => b.count,
        }
    }

    /// How many bits the type corresponds to.
    #[verifier::when_used_as_spec(spec_bit_count)]
    pub fn bit_count(self) -> (r: u8)
        ensures
            r == self.spec_bit_count(),
    {
        match self {
            Type::Bool => 1,
            Type::Num(b) => b.count,
        }
    }

    /// The type a field of `bit_count` bits gets under `precision`: a boolean
    /// for a single bit, the exact width under exact precision, and otherwise
    /// the smallest built-in width that fits.
    pub open spec fn spec_for_field(bit_count: u8, precision: Precision) -> Type {
        if bit_count == 1 {
            Type::Bool
        } else if precision == Precision::Ux {
            Type::Num(BitCount { count: bit_count })
        } else {
            Type::Num(BitCount { count: spec_standard_width(bit_count) })
        }
    }

    /// Determine what type is needed for a field of the given width under the
    /// given precision.
    pub fn for_field(bit_count: u8, precision: Precision) -> (r: Type)
        requires
            1 <= bit_count <= 128,
        ensures
            r == Type::spec_for_field(bit_count, precision),
            r.wf(),
    {
        if bit_count == 1 {
            Type::Bool
        } else if precision == Precision::Ux {
            Type::Num(BitCount { count: bit_count })
        } else if bit_count <= 8 {
            Type::Num(BitCount { count: 8 })
        } else if bit_count <= 16 {
            Type::Num(BitCount { count: 16 })
        } else if bit_count <= 32 {
            Type::Num(BitCount { count: 32 })
        } else if bit_count <= 64 {
            Type::Num(BitCount { count: 64 })
        } else {
            Type::Num(BitCount { count: 128 })
        }
    }

    /// Whether `bit_count` is a width a whole template may have.
    pub open spec fn spec_valid_template_width(bit_count: u8) -> bool {
        bit_count == 8 || bit_count == 16 || bit_count == 32 || bit_count == 64 || bit_count == 128
    }

    /// Create a valid type for a template given the template's width, which
    /// must be one of the standard widths 8, 16, 32, 64 or 128.
    pub fn for_template(bit_count: u8) -> (r: Result<Type, TemplateError>)
        ensures
            Type::spec_valid_template_width(bit_count) <==> r is Ok,
            r matches Ok(t) ==> t == Type::Num(BitCount { count: bit_count }) && t.wf(),
            r matches Err(e) ==> e == (TemplateError::NonStandardWidth { width: bit_count }),
    {
        if bit_count == 8 || bit_count == 16 || bit_count == 32 || bit_count == 64
            || bit_count == 128 {
            Ok(Type::Num(BitCount { count: bit_count }))
        } else {
            Err(TemplateError::NonStandardWidth { width: bit_count })
        }
    }

    /// Return true if the type is a built-in type (bool, u8, u16, u32, u64,
    /// u128).
    pub open spec fn spec_is_standard(self) -> bool {
        match self {
            Type::Bool => true,
            Type::Num(b) => b.count == 8 || b.count == 16 || b.count == 32 || b.count == 64
                || b.count == 128,
        }
    }

    /// Return true if the type is a built-in type (bool, u8, u16, u32, u64,
    /// u128).
    #[verifier::when_used_as_spec(spec_is_standard)]
    pub fn is_standard(self) -> (r: bool)
        ensures
            r == self.spec_is_standard(),
    {
        match self {
            Type::Bool => true,
            Type::Num(b) => b.count == 8 || b.count == 16 || b.count == 32 || b.count == 64
                || b.count == 128,
        }
    }

    /// Combine two types to create a larger, standard-precision type.
    pub fn concat(self, other: Type) -> (r: Type)
        requires
            self.wf(),
            other.wf(),
            self.spec_bit_count() + other.spec_bit_count() <= 128,
        ensures
            r == Type::spec_for_field(
                (self.spec_bit_count() + other.spec_bit_count()) as u8,
                Precision::Standard,
            ),
            r.wf(),
    {
        Type::for_field(self.bit_count() + other.bit_count(), Precision::Standard)
    }

    /// Whether this type is strictly wider than `other`, with booleans
    /// narrower than every numeric type.
    pub open spec fn spec_wider_than(self, other: Type) -> bool {
        match (self, other) {
            (Type::Bool, _) => false,
            (Type::Num(_), Type::Bool) => true,
            (Type::Num(a), Type::Num(b)) => a.count > b.count,
        }
    }

    /// Whether this type is strictly wider than `other`, with booleans
    /// narrower than every numeric type.
    #[verifier::when_used_as_spec(spec_wider_than)]
    pub fn wider_than(self, other: Type) -> (r: bool)
        ensures
            r == self.spec_wider_than(other),
    {
        match (self, other) {
            (Type::Bool, _) => false,
            (Type::Num(_), Type::Bool) => true,
            (Type::Num(a), Type::Num(b)) => a.count > b.count,
        }
    }
}

} // verus!
