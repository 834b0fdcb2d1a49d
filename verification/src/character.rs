//! Template characters and the character-sequence parser.
//!
//! A template string is parsed into a sequence of binary-resolution
//! characters.  Whitespace is stripped, and under the hexadecimal base each
//! hex digit expands to four literal bit characters while name letters and
//! placeholders are repeated four times.

use vstd::prelude::*;
use vstd::string::StrSliceExecFns;

use crate::base::Base;
use crate::error::TemplateError;
use crate::name::Name;

verus! {

/// A single legal character of a template in its base-2 form.  Higher bases
/// are expanded to base 2 before this type is used.
#[derive(PartialEq, Eq, Structural, Clone, Copy, Debug)]
pub enum Character {
    /// A character that is legal within a field name.
    Name(Name),
    /// A period `.`, indicating that the template ignores the matching bit.
    Placeholder,
    /// A literal `0` bit.
    Zero,
    /// A literal `1` bit.
    One,
}

impl Character {
    /// The character a unicode char stands for, if it is template-legal.
    pub open spec fn spec_from_char(c: char) -> Option<Character> {
        if c == '.' {
            Some(Character::Placeholder)
        } else if c == '0' {
            Some(Character::Zero)
        } else if c == '1' {
            Some(Character::One)
        } else if 'a' <= c <= 'z' {
            Some(Character::Name(Name { letter: c }))
        } else {
            None
        }
    }

    /// Attempt to convert a unicode char to a Character.
    pub fn from_char(c: char) -> (r: Result<Character, TemplateError>)
        ensures
            r matches Ok(ch) ==> Character::spec_from_char(c) == Some(ch),
            r is Err ==> Character::spec_from_char(c) is None,
            r matches Err(e) ==> e == (TemplateError::IllegalCharacter { found: c }),
    {
        if c == '.' {
            Ok(Character::Placeholder)
        } else if c == '0' {
            Ok(Character::Zero)
        } else if c == '1' {
            Ok(Character::One)
        } else {
            match Name::new(c) {
                Ok(name) => Ok(Character::Name(name)),
                Err(e) => Err(e),
            }
        }
    }

    /// Whether the character is a literal `0` or `1`.
    pub open spec fn spec_is_literal(self) -> bool {
        self == Character::Zero || self == Character::One
    }

    /// Whether the character is a literal `0` or `1`.
    #[verifier::when_used_as_spec(spec_is_literal)]
    pub fn is_literal(self) -> (r: bool)
        ensures
            r == self.spec_is_literal(),
    {
        self == Character::Zero || self == Character::One
    }

    /// The name this character carries, if any.
    pub open spec fn spec_to_name(self) -> Option<Name> {
        match self {
            Character::Name(name) => Some(name),
            _ => None,
        }
    }

    /// Convert the character to a Name, if it is a valid Name.
    #[verifier::when_used_as_spec(spec_to_name)]
    pub fn to_name(self) -> (r: Option<Name>)
        ensures
            r == self.spec_to_name(),
    {
        match self {
            Character::Name(name) => Some(name),
            _ => None,
        }
    }

    /// Convert the character back to a unicode char.
    pub fn to_char(self) -> (c: char)
        ensures
            self matches Character::Name(n) ==> c == n.spec_to_char(),
            self is Placeholder ==> c == '.',
            self is Zero ==> c == '0',
            self is One ==> c == '1',
    {
        match self {
            Character::Placeholder => '.',
            Character::Zero => '0',
            Character::One => '1',
            Character::Name(name) => name.to_char(),
        }
    }
}

/// Whether `c` is a hexadecimal digit as templates accept them: decimal
/// digits and uppercase `A` to `F`.
pub open spec fn spec_is_hex_digit(c: char) -> bool {
    ('0' <= c <= '9') || ('A' <= c <= 'F')
}

/// The four binary-resolution characters a hexadecimal digit stands for,
/// most significant bit first.
pub open spec fn spec_hex_bits(c: char) -> Seq<Character> {
    let z = Character::Zero;
    let o = Character::One;
    if c == '0' {
        seq![z, z, z, z]
    } else if c == '1' {
        seq![z, z, z, o]
    } else if c == '2' {
        seq![z, z, o, z]
    } else if c == '3' {
        seq![z, z, o, o]
    } else if c == '4' {
        seq![z, o, z, z]
    } else if c == '5' {
        seq![z, o, z, o]
    } else if c == '6' {
        seq![z, o, o, z]
    } else if c == '7' {
        seq![z, o, o, o]
    } else if c == '8' {
        seq![o, z, z, z]
    } else if c == '9' {
        seq![o, z, z, o]
    } else if c == 'A' {
        seq![o, z, o, z]
    } else if c == 'B' {
        seq![o, z, o, o]
    } else if c == 'C' {
        seq![o, o, z, z]
    } else if c == 'D' {
        seq![o, o, z, o]
    } else if c == 'E' {
        seq![o, o, o, z]
    } else {
        seq![o, o, o, o]
    }
}

/// What one character of template text contributes to the parsed sequence:
/// nothing for a space, four bit characters for a hexadecimal digit, and a
/// template character repeated once per bit of the base's digit width
/// otherwise.  `None` stands for a parse failure.
pub open spec fn spec_expand_char(c: char, base: Base) -> Option<Seq<Character>> {
    if c == ' ' {
        Some(Seq::<Character>::empty())
    } else if base == Base::Hexadecimal && spec_is_hex_digit(c) {
        Some(spec_hex_bits(c))
    } else {
        match Character::spec_from_char(c) {
            Some(ch) => Some(
                if base == Base::Hexadecimal {
                    seq![ch, ch, ch, ch]
                } else {
                    seq![ch]
                },
            ),
            None => None,
        }
    }
}

/// The parsed character sequence of a template text, or `None` if any
/// character of the text is illegal for the base.
pub open spec fn spec_parse(text: Seq<char>, base: Base) -> Option<Seq<Character>>
    decreases text.len(),
{
    if text.len() == 0 {
        Some(Seq::<Character>::empty())
    } else {
        match (spec_parse(text.drop_last(), base), spec_expand_char(text.last(), base)) {
            (Some(s), Some(e)) => Some(s + e),
            _ => None,
        }
    }
}

/// Parsing one more character appends that character's expansion.
proof fn lemma_parse_snoc(text: Seq<char>, c: char, base: Base)
    ensures
        spec_parse(text.push(c), base) == match (
            spec_parse(text, base),
            spec_expand_char(c, base),
        ) {
            (Some(s), Some(e)) => Some(s + e),
            _ => None::<Seq<Character>>,
        },
{
    assert(text.push(c).drop_last() =~= text);
    assert(text.push(c).last() == c);
}

/// A text whose prefix fails to parse fails to parse as a whole.
proof fn lemma_parse_prefix_none(text: Seq<char>, base: Base, k: int)
    requires
        0 <= k <= text.len(),
        spec_parse(text.take(k), base) is None,
    ensures
        spec_parse(text, base) is None,
    decreases text.len() - k,
{
    if k == text.len() {
        assert(text.take(k) =~= text);
    } else {
        assert(text.take(k + 1).drop_last() =~= text.take(k));
        lemma_parse_prefix_none(text, base, k + 1);
    }
}

/// Contains consecutive values of type Character: the backing store for a
/// template.  A well-formed sequence holds at most 128 characters.
pub struct Characters {
    pub chars: Vec<Character>,
}

impl View for Characters {
    type V = Seq<Character>;

    open spec fn view(&self) -> Seq<Character> {
        self.chars@
    }
}

/// The mask of a character sequence's literal positions: walking the
/// sequence from its first (most significant) character, ones where a
/// literal `0` or `1` stands, zeroes everywhere else.
pub open spec fn spec_literal_mask(s: Seq<Character>) -> u128
    decreases s.len(),
{
    if s.len() == 0 {
        0
    } else {
        (spec_literal_mask(s.drop_last()) << 1) | (if s.last().spec_is_literal() {
            1
        } else {
            0
        })
    }
}

/// The value a character sequence's literal `1` positions stand for: ones
/// where a literal `1` stands, zeroes everywhere else.
pub open spec fn spec_literal_value(s: Seq<Character>) -> u128
    decreases s.len(),
{
    if s.len() == 0 {
        0
    } else {
        (spec_literal_value(s.drop_last()) << 1) | (if s.last() == Character::One {
            1
        } else {
            0
        })
    }
}

/// Whether any character of the sequence is a literal digit.
pub open spec fn spec_has_literal(s: Seq<Character>) -> bool {
    exists|i: int| 0 <= i < s.len() && s[i].spec_is_literal()
}

/// Whether any character of the sequence is a placeholder.
pub open spec fn spec_has_placeholders(s: Seq<Character>) -> bool {
    exists|i: int| 0 <= i < s.len() && s[i] is Placeholder
}

/// A sequence without literal digits has literal value zero.
pub proof fn lemma_no_literal_value_zero(s: Seq<Character>)
    requires
        !spec_has_literal(s),
    ensures
        spec_literal_value(s) == 0,
    decreases s.len(),
{
    if s.len() > 0 {
        assert(!s[s.len() - 1].spec_is_literal());
        assert(!spec_has_literal(s.drop_last())) by {
            if spec_has_literal(s.drop_last()) {
                let i = choose|i: int|
                    0 <= i < s.drop_last().len() && #[trigger] s.drop_last()[i].spec_is_literal();
                assert(s[i].spec_is_literal());
            }
        }
        lemma_no_literal_value_zero(s.drop_last());
        assert(((0u128 << 1) | 0) == 0) by (bit_vector);
    }
}

/// The distinct names of a character sequence, in order of first appearance.
pub open spec fn spec_names(s: Seq<Character>) -> Seq<Name>
    decreases s.len(),
{
    if s.len() == 0 {
        Seq::<Name>::empty()
    } else {
        let prefix = spec_names(s.drop_last());
        match s.last().spec_to_name() {
            Some(name) => if prefix.contains(name) {
                prefix
            } else {
                prefix.push(name)
            },
            None => prefix,
        }
    }
}

/// A sequence has at most as many distinct names as characters.
pub proof fn lemma_names_len_le(s: Seq<Character>)
    ensures
        spec_names(s).len() <= s.len(),
    decreases s.len(),
{
    if s.len() > 0 {
        lemma_names_len_le(s.drop_last());
    }
}

impl Characters {
    /// A well-formed character sequence holds at most 128 characters.
    pub open spec fn wf(self) -> bool {
        self@.len() <= 128
    }

    /// Given a numeric base, convert a str to a character sequence.  Strips
    /// out any spaces, as those are only for human readability, and converts
    /// non-binary digits into binary literals.  Fails on a character the
    /// base does not accept and on a sequence of more than 128 characters.
    pub fn from_str(text: &str, base: Base) -> (r: Result<Characters, TemplateError>)
        ensures
            r is Ok <==> (spec_parse(text@, base) matches Some(s) && s.len() <= 128),
            r matches Ok(cs) ==> Some(cs@) == spec_parse(text@, base) && cs.wf(),
            r matches Err(e) ==> match e {
                TemplateError::IllegalCharacter { found } => {
                    &&& spec_parse(text@, base) is None
                    &&& exists|i: int|
                        0 <= i < text@.len() && text@[i] == found && spec_expand_char(
                            found,
                            base,
                        ) is None
                },
                TemplateError::TooWide { bit_count } => {
                    &&& spec_parse(text@, base) matches Some(s) && s.len() > 128 && bit_count
                        == s.len()
                },
                _ => false,
            },
    {
        let text_len = text.unicode_len();
        let mut chars: Vec<Character> = Vec::new();
        let mut i: usize = 0;
        while i < text_len
            invariant
                i <= text_len,
                text_len == text@.len(),
                Some(chars@) == spec_parse(text@.take(i as int), base),
            decreases text_len - i,
        {
            let c = text.get_char(i);
            proof {
                assert(text@.take(i + 1) =~= text@.take(i as int).push(text@[i as int]));
                lemma_parse_snoc(text@.take(i as int), c, base);
            }
            if c == ' ' {
                proof {
                    assert(chars@ + Seq::<Character>::empty() =~= chars@);
                }
            } else {
                let mut handled = false;
                if base == Base::Hexadecimal {
                    if let Some(bits) = hex_digit_to_array(c) {
                        let ghost prev = chars@;
                        chars.push(bits[0]);
                        chars.push(bits[1]);
                        chars.push(bits[2]);
                        chars.push(bits[3]);
                        handled = true;
                        proof {
                            assert(chars@ =~= prev + spec_hex_bits(c));
                        }
                    }
                }
                if !handled {
                    match Character::from_char(c) {
                        Ok(ch) => {
                            let ghost prev = chars@;
                            chars.push(ch);
                            if base == Base::Hexadecimal {
                                chars.push(ch);
                                chars.push(ch);
                                chars.push(ch);
                                proof {
                                    assert(chars@ =~= prev + seq![ch, ch, ch, ch]);
                                }
                            } else {
                                proof {
                                    assert(chars@ =~= prev + seq![ch]);
                                }
                            }
                        },
                        Err(e) => {
                            proof {
                                lemma_parse_prefix_none(text@, base, i + 1);
                            }
                            return Err(e);
                        },
                    }
                }
            }
            i = i + 1;
        }
        proof {
            assert(text@.take(text_len as int) =~= text@);
        }
        if chars.len() > 128 {
            Err(TemplateError::TooWide { bit_count: chars.len() })
        } else {
            Ok(Characters { chars })
        }
    }

    /// Get the literal that the template corresponds to: the `1` positions
    /// among the characters as a numeric constant, or `None` if the template
    /// holds no literal digit.
    pub fn extract_literal(&self) -> (r: Option<u128>)
        ensures
            r is Some <==> spec_has_literal(self@),
            r matches Some(v) ==> v == spec_literal_value(self@),
    {
        let mut found = false;
        let mut value: u128 = 0;
        let n = self.chars.len();
        let mut i: usize = 0;
        while i < n
            invariant
                i <= n,
                n == self@.len(),
                found == spec_has_literal(self@.take(i as int)),
                value == spec_literal_value(self@.take(i as int)),
            decreases n - i,
        {
            let c = self.chars[i];
            proof {
                assert(self@.take(i + 1).drop_last() =~= self@.take(i as int));
            }
            if c.is_literal() {
                found = true;
            }
            value = (value << 1) | (if c == Character::One {
                1
            } else {
                0
            });
            proof {
                if spec_has_literal(self@.take(i + 1)) && !spec_has_literal(self@.take(i as int))
                    && !self@[i as int].spec_is_literal() {
                    let j = choose|j: int|
                        0 <= j < i + 1 && #[trigger] self@.take(i + 1)[j].spec_is_literal();
                    assert(self@.take(i as int)[j].spec_is_literal());
                }
                if self@[i as int].spec_is_literal() {
                    assert(self@.take(i + 1)[i as int].spec_is_literal());
                }
            }
            i = i + 1;
        }
        proof {
            assert(self@.take(n as int) =~= self@);
        }
        if found {
            Some(value)
        } else {
            None
        }
    }

    /// Ones where a literal character stands, zeroes everywhere else.
    pub fn literal_mask(&self) -> (r: u128)
        ensures
            r == spec_literal_mask(self@),
    {
        let mut mask: u128 = 0;
        let n = self.chars.len();
        let mut i: usize = 0;
        while i < n
            invariant
                i <= n,
                n == self@.len(),
                mask == spec_literal_mask(self@.take(i as int)),
            decreases n - i,
        {
            let c = self.chars[i];
            proof {
                assert(self@.take(i + 1).drop_last() =~= self@.take(i as int));
            }
            mask = (mask << 1) | (if c.is_literal() {
                1
            } else {
                0
            });
            i = i + 1;
        }
        proof {
            assert(self@.take(n as int) =~= self@);
        }
        mask
    }

    /// Return true if there are any placeholder periods among the characters.
    pub fn has_placeholders(&self) -> (r: bool)
        ensures
            r == spec_has_placeholders(self@),
    {
        let n = self.chars.len();
        let mut i: usize = 0;
        while i < n
            invariant
                i <= n,
                n == self@.len(),
                forall|j: int| 0 <= j < i ==> !(self@[j] is Placeholder),
            decreases n - i,
        {
            if self.chars[i] == Character::Placeholder {
                return true;
            }
            i = i + 1;
        }
        false
    }

    /// Extract all the unique names present in the characters, in order of
    /// first appearance.
    pub fn to_names(&self) -> (r: Vec<Name>)
        ensures
            r@ == spec_names(self@),
    {
        let mut names: Vec<Name> = Vec::new();
        let n = self.chars.len();
        let mut i: usize = 0;
        while i < n
            invariant
                i <= n,
                n == self@.len(),
                names@ == spec_names(self@.take(i as int)),
            decreases n - i,
        {
            proof {
                assert(self@.take(i + 1).drop_last() =~= self@.take(i as int));
            }
            if let Some(name) = self.chars[i].to_name() {
                if !contains_name(&names, name) {
                    names.push(name);
                }
            }
            i = i + 1;
        }
        proof {
            assert(self@.take(n as int) =~= self@);
        }
        names
    }

    /// The count of characters.
    pub fn width(&self) -> (r: u8)
        requires
            self.wf(),
        ensures
            r == self@.len(),
    {
        self.chars.len() as u8
    }
}

/// Whether a vector of names contains the given name.
fn contains_name(names: &Vec<Name>, name: Name) -> (r: bool)
    ensures
        r == names@.contains(name),
{
    let n = names.len();
    let mut i: usize = 0;
    while i < n
        invariant
            i <= n,
            n == names@.len(),
            forall|j: int| 0 <= j < i ==> names@[j] != name,
        decreases n - i,
    {
        if names[i] == name {
            return true;
        }
        i = i + 1;
    }
    false
}

/// The four binary-resolution characters a hexadecimal digit corresponds to,
/// or `None` for any other char.
fn hex_digit_to_array(digit: char) -> (r: Option<[Character; 4]>)
    ensures
        r is Some <==> spec_is_hex_digit(digit),
        r matches Some(a) ==> a@ == spec_hex_bits(digit),
{
    let z = Character::Zero;
    let o = Character::One;
    if digit == '0' {
        Some([z, z, z, z])
    } else if digit == '1' {
        Some([z, z, z, o])
    } else if digit == '2' {
        Some([z, z, o, z])
    } else if digit == '3' {
        Some([z, z, o, o])
    } else if digit == '4' {
        Some([z, o, z, z])
    } else if digit == '5' {
        Some([z, o, z, o])
    } else if digit == '6' {
        Some([z, o, o, z])
    } else if digit == '7' {
        Some([z, o, o, o])
    } else if digit == '8' {
        Some([o, z, z, z])
    } else if digit == '9' {
        Some([o, z, z, o])
    } else if digit == 'A' {
        Some([o, z, o, z])
    } else if digit == 'B' {
        Some([o, z, o, o])
    } else if digit == 'C' {
        Some([o, o, z, z])
    } else if digit == 'D' {
        Some([o, o, z, o])
    } else if digit == 'E' {
        Some([o, o, o, z])
    } else if digit == 'F' {
        Some([o, o, o, o])
    } else {
        None
    }
}

} // verus!
