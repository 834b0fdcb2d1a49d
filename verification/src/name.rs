//! Single-letter field names.

use vstd::prelude::*;

use crate::error::TemplateError;

verus! {

/// A single-character field name: one lowercase ASCII letter.
#[derive(PartialEq, Eq, Structural, Clone, Copy, Debug)]
pub struct Name {
    pub letter: char,
}

impl Name {
    /// The letter this name was made from.
    pub open spec fn spec_to_char(self) -> char {
        self.letter
    }

    /// Every constructed name holds a lowercase ASCII letter.
    pub open spec fn wf(self) -> bool {
        'a' <= self.letter <= 'z'
    }

    /// Create a new name, failing if a non-ascii-lowercase char is provided.
    pub fn new(raw_name: char) -> (r: Result<Name, TemplateError>)
        ensures
            ('a' <= raw_name <= 'z') <==> r is Ok,
            r matches Ok(n) ==> n.spec_to_char() == raw_name && n.wf(),
            r matches Err(e) ==> e == (TemplateError::IllegalCharacter { found: raw_name }),
    {
        if 'a' <= raw_name && raw_name <= 'z' {
            Ok(Name { letter: raw_name })
        } else {
            Err(TemplateError::IllegalCharacter { found: raw_name })
        }
    }

    /// Convert back to a unicode char.
    #[verifier::when_used_as_spec(spec_to_char)]
    pub fn to_char(self) -> (c: char)
        ensures
            c == self.spec_to_char(),
    {
        self.letter
    }
}

} // verus!
