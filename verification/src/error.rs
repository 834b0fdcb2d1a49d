//! Structured failure reasons for template resolution and compilation.

use vstd::prelude::*;

use crate::name::Name;

verus! {

/// Why a template could not be resolved or an operation could not be
/// compiled.  Every failure the crate reports is one of these; none is
/// retried, and none leaves a partial result behind.
#[derive(PartialEq, Eq, Structural, Clone, Copy, Debug)]
pub enum TemplateError {
    /// A character that the active base does not accept, or a name letter
    /// that is not lowercase ASCII.
    IllegalCharacter { found: char },
    /// The resolved sequence is longer than 128 characters.
    TooWide { bit_count: usize },
    /// A whole-template operation needs a width of 8, 16, 32, 64 or 128.
    NonStandardWidth { width: u8 },
    /// An integer type of 0 bits, or of more than 128 bits, was asked for.
    InvalidBitCount { count: usize },
    /// Literal digits are not allowed in this template.
    LiteralNotAllowed { found: char },
    /// Placeholders are not allowed in this template.
    PlaceholderNotAllowed,
    /// The number of supplied values differs from the number of names.
    ArityMismatch { expected: usize, actual: usize },
    /// Under the panic overflow policy: a value exceeds its slot's mask.
    Overflow { name: Name, value: u128, mask: u128 },
    /// A merged field's width differs from the width the output template
    /// gives the same name.
    WidthMismatch { name: Name, field_width: u8, template_width: u8 },
    /// The output template names a field that no input supplied.
    MissingField { name: Name },
    /// Under standard precision the minimum-size override must itself be a
    /// standard type.
    MinNotStandard,
    /// A word that names no overflow policy.
    UnknownOverflowOption,
}

} // verus!
