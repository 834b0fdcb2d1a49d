//! Templates: parsed character sequences with their resolved field
//! locations, and the operations compiled over them.

use vstd::prelude::*;

use crate::base::Base;
use crate::bits::fits;
use crate::bits::low_mask;
use crate::character::Character;
use crate::character::Characters;
use crate::character::spec_has_literal;
use crate::character::spec_has_placeholders;
use crate::character::spec_literal_mask;
use crate::character::spec_literal_value;
use crate::character::spec_names;
use crate::character::spec_parse;
use crate::error::TemplateError;
use crate::field::Field;
use crate::field::FieldModel;
use crate::field::spec_field_type;
use crate::field::spec_find;
use crate::field::spec_seg_width_sum;
use crate::field::spec_segments_value;
use crate::field::spec_widen_segments;
use crate::field::views;
use crate::field::find_field;
use crate::field::lemma_seg_sum_widen;
use crate::field::lemma_segments_value_widen;
use crate::field::spec_width_sum;
use crate::field::lemma_width_sum_take_le;
use crate::field::lemma_width_sum_take_step;
use crate::location::Location;
use crate::location::OnOverflow;
use crate::name::Name;
use crate::segment::Segment;
use crate::types::Precision;
use crate::types::Type;

verus! {

/// The character standing at bit `b` of the template, bit 0 being the least
/// significant: characters are written most significant first.
pub open spec fn spec_char_at_bit(s: Seq<Character>, b: int) -> Character {
    s[s.len() - 1 - b]
}

/// Whether bit `b` lies inside one of the locations.
pub open spec fn spec_covered(locs: Seq<Location>, b: int) -> bool {
    exists|j: int|
        0 <= j < locs.len() && (#[trigger] locs[j]).mask_offset <= b < locs[j].mask_offset
            + locs[j].width
}

/// The locations of one name within a character sequence: valid runs in
/// ascending order, separated by at least one other character, that cover
/// exactly the bits where the name stands.
pub open spec fn spec_locs_wf(s: Seq<Character>, name: Name, locs: Seq<Location>) -> bool {
    &&& forall|j: int|
        0 <= j < locs.len() ==> (#[trigger] locs[j]).wf() && locs[j].mask_offset + locs[j].width
            <= s.len()
    &&& forall|j: int|
        0 <= j < locs.len() - 1 ==> (#[trigger] locs[j]).mask_offset + locs[j].width < locs[j
            + 1].mask_offset
    &&& forall|b: int|
        0 <= b < s.len() ==> ((spec_char_at_bit(s, b) == Character::Name(name)) <==> spec_covered(
            locs,
            b,
        ))
}

/// A name listed among a sequence's names stands somewhere in the sequence.
proof fn lemma_names_appear(s: Seq<Character>, name: Name)
    requires
        spec_names(s).contains(name),
    ensures
        exists|i: int| 0 <= i < s.len() && s[i] == Character::Name(name),
    decreases s.len(),
{
    if s.len() > 0 {
        if s.last() == Character::Name(name) {
            assert(s[s.len() - 1] == Character::Name(name));
        } else {
            lemma_names_appear(s.drop_last(), name);
            let i = choose|i: int|
                0 <= i < s.drop_last().len() && s.drop_last()[i] == Character::Name(name);
            assert(s[i] == Character::Name(name));
        }
    }
}

/// Ordered, separated locations sum to at most their last location's end.
proof fn lemma_locs_sum_le_end(locs: Seq<Location>)
    requires
        locs.len() > 0,
        forall|j: int|
            0 <= j < locs.len() - 1 ==> (#[trigger] locs[j]).mask_offset + locs[j].width < locs[j
                + 1].mask_offset,
    ensures
        spec_width_sum(locs) <= locs.last().mask_offset + locs.last().width,
    decreases locs.len(),
{
    if locs.len() > 1 {
        let front = locs.drop_last();
        assert(forall|j: int|
            0 <= j < front.len() - 1 ==> (#[trigger] front[j]).mask_offset + front[j].width
                < front[j + 1].mask_offset);
        lemma_locs_sum_le_end(front);
        assert(front.last() == locs[locs.len() - 2]);
        assert(locs[locs.len() - 2].mask_offset + locs[locs.len() - 2].width < locs[locs.len()
            - 1].mask_offset);
        assert(spec_width_sum(locs) == spec_width_sum(front) + locs.last().width as nat);
    } else {
        assert(spec_width_sum(locs.drop_last()) == 0);
    }
}

/// A field extracted from `input` under the given typing: one segment per
/// location, packed upward in ascending location order.
pub open spec fn spec_is_extracted_field(
    f: FieldModel,
    input: u128,
    input_type: Type,
    precision: Precision,
    min_size: Option<Type>,
    name: Name,
    locs: Seq<Location>,
) -> bool {
    &&& f.name == name
    &&& f.segments.len() == locs.len()
    &&& forall|j: int|
        0 <= j < locs.len() ==> f.segments[j] == (Segment {
            input,
            t: input_type,
            location: locs[j],
            offset: spec_width_sum(locs.take(j)) as u8,
        })
    &&& f.bit_width == spec_field_type(spec_width_sum(locs) as u8, precision, min_size)
}

/// A sequence of characters used to match and extract bit fields from an
/// integer, or alternately to combine bit fields into an integer.
pub struct Template {
    /// The type of the integer the template matches: its bit count equals
    /// the number of characters.
    pub width: Type,
    /// Whether fields get built-in types only, or exact-width ones.
    pub precision: Precision,
    /// The template-legal characters contained in this template, in order.
    pub characters: Characters,
    /// The locations of the disjoint segments of each bit field, paired with
    /// the field name; locations are kept in ascending offset order.
    pub locations_by_name: Vec<(Name, Vec<Location>)>,
}

impl Template {
    /// The template's width in bits.
    pub open spec fn n_bits(self) -> int {
        self.width.spec_bit_count() as int
    }

    /// The names of the template, in first-appearance order.
    pub open spec fn names(self) -> Seq<Name> {
        spec_names(self.characters@)
    }

    /// The locations resolved for the i-th name.
    pub open spec fn locs_of(self, i: int) -> Seq<Location> {
        self.locations_by_name@[i].1@
    }

    /// A resolved template: its character count is its width, a standard
    /// one, and each name's locations are exactly that name's runs.
    pub open spec fn wf(self) -> bool {
        &&& self.width is Num
        &&& Type::spec_valid_template_width(self.width.spec_bit_count())
        &&& self.characters@.len() == self.n_bits()
        &&& self.locations_by_name@.len() == self.names().len()
        &&& forall|i: int|
            0 <= i < self.names().len() ==> {
                &&& (#[trigger] self.locations_by_name@[i]).0 == self.names()[i]
                &&& spec_locs_wf(self.characters@, self.names()[i], self.locs_of(i))
                &&& self.locs_of(i).len() >= 1
                &&& spec_width_sum(self.locs_of(i)) <= self.n_bits()
            }
    }

    /// Build a template from its text: parse the characters, require a
    /// standard width, and resolve every name's locations.
    pub fn from_expr(text: &str, base: Base, precision: Precision) -> (r: Result<
        Template,
        TemplateError,
    >)
        ensures
            r matches Ok(t) ==> {
                &&& t.wf()
                &&& Some(t.characters@) == spec_parse(text@, base)
                &&& t.precision == precision
                &&& t.width.spec_bit_count() == t.characters@.len()
            },
            r matches Err(e) ==> match e {
                TemplateError::IllegalCharacter { found } => spec_parse(text@, base) is None,
                TemplateError::TooWide { bit_count } => spec_parse(text@, base) matches Some(s)
                    && s.len() > 128 && bit_count == s.len(),
                TemplateError::NonStandardWidth { width } => spec_parse(text@, base) matches Some(
                    s,
                ) && s.len() <= 128 && width == s.len() && !Type::spec_valid_template_width(
                    width,
                ),
                _ => false,
            },
            r is Ok <==> (spec_parse(text@, base) matches Some(s) && s.len() <= 128
                && Type::spec_valid_template_width(s.len() as u8)),
    {
        let characters = match Characters::from_str(text, base) {
            Ok(cs) => cs,
            Err(e) => {
                return Err(e);
            },
        };
        let width = match Type::for_template(characters.width()) {
            Ok(w) => w,
            Err(e) => {
                return Err(e);
            },
        };
        let names = characters.to_names();
        let name_count = names.len();
        let mut locations_by_name: Vec<(Name, Vec<Location>)> = Vec::new();
        let mut i: usize = 0;
        while i < name_count
            invariant
                i <= name_count,
                name_count == spec_names(characters@).len(),
                names@ == spec_names(characters@),
                characters@.len() <= 128,
                locations_by_name@.len() == i,
                forall|k: int|
                    0 <= k < i ==> {
                        &&& (#[trigger] locations_by_name@[k]).0 == spec_names(characters@)[k]
                        &&& spec_locs_wf(
                            characters@,
                            spec_names(characters@)[k],
                            locations_by_name@[k].1@,
                        )
                        &&& locations_by_name@[k].1@.len() >= 1
                        &&& spec_width_sum(locations_by_name@[k].1@) <= characters@.len()
                    },
            decreases name_count - i,
        {
            let name = names[i];
            let locs = resolve_name(&characters, name);
            proof {
                assert(spec_names(characters@).contains(name)) by {
                    assert(spec_names(characters@)[i as int] == name);
                }
                lemma_names_appear(characters@, name);
                let w = choose|w: int|
                    0 <= w < characters@.len() && characters@[w] == Character::Name(name);
                let b = characters@.len() - 1 - w;
                assert(spec_char_at_bit(characters@, b) == Character::Name(name));
                assert(spec_covered(locs@, b));
                assert(locs@.len() >= 1);
                lemma_locs_sum_le_end(locs@);
            }
            locations_by_name.push((name, locs));
            i = i + 1;
        }
        Ok(Template { width, precision, characters, locations_by_name })
    }

    /// True if any placeholder periods are present; used by operations that
    /// do not accept placeholders.
    pub fn has_placeholders(&self) -> (r: bool)
        ensures
            r == spec_has_placeholders(self.characters@),
    {
        self.characters.has_placeholders()
    }

    /// Extract one field per name from the input value, as laid out by the
    /// template.  Any field narrower than `min_size` is upsized to it.
    pub fn extract_fields(&self, input: u128, min_size: Option<Type>) -> (r: Vec<Field>)
        requires
            self.wf(),
            fits(input, self.width.spec_bit_count() as u128),
            min_size matches Some(m) ==> m.wf(),
        ensures
            r@.len() == self.names().len(),
            forall|i: int|
                0 <= i < r@.len() ==> spec_is_extracted_field(
                    (#[trigger] r@[i])@,
                    input,
                    self.width,
                    self.precision,
                    min_size,
                    self.names()[i],
                    self.locs_of(i),
                ) && r@[i]@.evaluable(),
    {
        let count = self.locations_by_name.len();
        let mut fields: Vec<Field> = Vec::new();
        let mut i: usize = 0;
        while i < count
            invariant
                i <= count,
                count == self.locations_by_name@.len(),
                self.wf(),
                fits(input, self.width.spec_bit_count() as u128),
                min_size matches Some(m) ==> m.wf(),
                fields@.len() == i,
                forall|k: int|
                    0 <= k < i ==> spec_is_extracted_field(
                        (#[trigger] fields@[k])@,
                        input,
                        self.width,
                        self.precision,
                        min_size,
                        self.names()[k],
                        self.locs_of(k),
                    ) && fields@[k]@.evaluable(),
            decreases count - i,
        {
            let pair = &self.locations_by_name[i];
            let field = Field::new(pair.0, self.width, input, self.precision, min_size, &pair.1);
            fields.push(field);
            i = i + 1;
        }
        fields
    }
}

/// Collect the maximal runs of `name` within the characters, walking from
/// the least significant bit upward.
fn resolve_name(chars: &Characters, name: Name) -> (r: Vec<Location>)
    requires
        chars.wf(),
    ensures
        spec_locs_wf(chars@, name, r@),
{
    let n = chars.chars.len();
    let mut locs: Vec<Location> = Vec::new();
    let mut run_start: usize = 0;
    let mut in_run: bool = false;
    let mut b: usize = 0;
    while b < n
        invariant
            b <= n,
            n == chars@.len(),
            n <= 128,
            in_run ==> run_start < b,
            forall|j: int|
                0 <= j < locs@.len() ==> (#[trigger] locs@[j]).wf() && locs@[j].mask_offset
                    + locs@[j].width < (if in_run {
                    run_start as int
                } else {
                    b as int
                }),
            forall|j: int|
                0 <= j < locs@.len() - 1 ==> (#[trigger] locs@[j]).mask_offset + locs@[j].width
                    < locs@[j + 1].mask_offset,
            in_run ==> forall|bb: int|
                run_start <= bb < b ==> spec_char_at_bit(chars@, bb) == Character::Name(name),
            forall|bb: int|
                0 <= bb < (if in_run {
                    run_start as int
                } else {
                    b as int
                }) ==> ((spec_char_at_bit(chars@, bb) == Character::Name(name)) <==> spec_covered(
                    locs@,
                    bb,
                )),
        decreases n - b,
    {
        let c = chars.chars[n - 1 - b];
        let is_name = c == Character::Name(name);
        if is_name && !in_run {
            in_run = true;
            run_start = b;
        } else if !is_name && in_run {
            let ghost prev = locs@;
            let loc = Location { width: (b - run_start) as u8, mask_offset: run_start as u8 };
            locs.push(loc);
            in_run = false;
            proof {
                assert forall|bb: int|
                    0 <= bb < b implies ((spec_char_at_bit(chars@, bb) == Character::Name(name))
                    <==> spec_covered(locs@, bb)) by {
                    if bb < run_start {
                        assert((spec_char_at_bit(chars@, bb) == Character::Name(name))
                            <==> spec_covered(prev, bb));
                        if spec_covered(prev, bb) {
                            let j = choose|j: int|
                                0 <= j < prev.len() && (#[trigger] prev[j]).mask_offset <= bb
                                    < prev[j].mask_offset + prev[j].width;
                            assert(locs@[j] == prev[j]);
                        }
                        if spec_covered(locs@, bb) {
                            let j = choose|j: int|
                                0 <= j < locs@.len() && (#[trigger] locs@[j]).mask_offset <= bb
                                    < locs@[j].mask_offset + locs@[j].width;
                            if j < prev.len() {
                                assert(spec_covered(prev, bb));
                            }
                        }
                    } else {
                        assert(spec_char_at_bit(chars@, bb) == Character::Name(name));
                        assert(locs@[locs@.len() - 1] == loc);
                        assert(spec_covered(locs@, bb));
                    }
                }
            }
        }
        b = b + 1;
    }
    if in_run {
        let ghost prev = locs@;
        let loc = Location { width: (n - run_start) as u8, mask_offset: run_start as u8 };
        locs.push(loc);
        proof {
            assert forall|bb: int|
                0 <= bb < n implies ((spec_char_at_bit(chars@, bb) == Character::Name(name))
                <==> spec_covered(locs@, bb)) by {
                if bb < run_start {
                    assert((spec_char_at_bit(chars@, bb) == Character::Name(name))
                        <==> spec_covered(prev, bb));
                    if spec_covered(prev, bb) {
                        let j = choose|j: int|
                            0 <= j < prev.len() && (#[trigger] prev[j]).mask_offset <= bb
                                < prev[j].mask_offset + prev[j].width;
                        assert(locs@[j] == prev[j]);
                    }
                    if spec_covered(locs@, bb) {
                        let j = choose|j: int|
                            0 <= j < locs@.len() && (#[trigger] locs@[j]).mask_offset <= bb
                                < locs@[j].mask_offset + locs@[j].width;
                        if j < prev.len() {
                            assert(spec_covered(prev, bb));
                        }
                    }
                } else {
                    assert(spec_char_at_bit(chars@, bb) == Character::Name(name));
                    assert(locs@[locs@.len() - 1] == loc);
                    assert(spec_covered(locs@, bb));
                }
            }
        }
    }
    locs
}

/// The slice of `var` that feeds location `j` of a name: the bits of `var`
/// above the widths of the earlier locations, masked to the location's width
/// everywhere but at the last location.
pub open spec fn spec_seg_raw(var: u128, locs: Seq<Location>, j: int) -> u128 {
    let raw = var >> (spec_width_sum(locs.take(j)) as u128);
    if j < locs.len() - 1 {
        raw & low_mask(locs[j].width as u128)
    } else {
        raw
    }
}

/// A slice placed into its location under a policy, within a template of
/// `n` bits: truncation masks the slice to the location, corruption lets it
/// spill into the bits above, saturation clamps it, and the panic policy
/// places it unchanged (a slice that does not fit is a failure instead).
pub open spec fn spec_place_one(seg: u128, loc: Location, n: u128, policy: OnOverflow) -> u128 {
    match policy {
        OnOverflow::Truncate => (seg & low_mask(loc.width as u128)) << (loc.mask_offset as u128),
        OnOverflow::Corrupt => (seg << (loc.mask_offset as u128)) & low_mask(n),
        OnOverflow::Panic => seg << (loc.mask_offset as u128),
        OnOverflow::Saturate => (
        if seg > low_mask(loc.width as u128) {
            low_mask(loc.width as u128)
        } else {
            seg
        }) << (loc.mask_offset as u128),
    }
}

/// Under the panic policy, every slice of a name's value must fit its
/// location; the other policies accept any value.
pub open spec fn spec_name_ok(var: u128, locs: Seq<Location>, policy: OnOverflow) -> bool {
    policy is Panic ==> forall|j: int|
        0 <= j < locs.len() ==> spec_seg_raw(var, locs, j) <= low_mask(
            (#[trigger] locs[j]).width as u128,
        )
}

/// One name's value placed into its first `j` locations, combined.
pub open spec fn spec_name_value_prefix(
    var: u128,
    locs: Seq<Location>,
    n: u128,
    policy: OnOverflow,
    j: int,
) -> u128
    decreases j,
{
    if j <= 0 {
        0
    } else {
        spec_name_value_prefix(var, locs, n, policy, j - 1) | spec_place_one(
            spec_seg_raw(var, locs, j - 1),
            locs[j - 1],
            n,
            policy,
        )
    }
}

/// One name's value placed into all its locations.
pub open spec fn spec_name_value(var: u128, locs: Seq<Location>, n: u128, policy: OnOverflow) -> u128 {
    spec_name_value_prefix(var, locs, n, policy, locs.len() as int)
}

/// The mask of the first `j` locations together.
pub open spec fn spec_locs_mask_prefix(locs: Seq<Location>, j: int) -> u128
    decreases j,
{
    if j <= 0 {
        0
    } else {
        spec_locs_mask_prefix(locs, j - 1) | locs[j - 1].spec_mask()
    }
}

impl Template {
    /// The first `i` names' values placed into their locations, combined.
    pub open spec fn spec_combine_prefix(self, values: Seq<u128>, policy: OnOverflow, i: int) -> u128
        decreases i,
    {
        if i <= 0 {
            0
        } else {
            self.spec_combine_prefix(values, policy, i - 1) | spec_name_value(
                values[i - 1],
                self.locs_of(i - 1),
                self.width.spec_bit_count() as u128,
                policy,
            )
        }
    }

    /// The combine result: every name's value placed into that name's
    /// locations, with the template's literal bits.
    pub open spec fn spec_combined(self, values: Seq<u128>, policy: OnOverflow) -> u128 {
        self.spec_combine_prefix(values, policy, self.names().len() as int) | spec_literal_value(
            self.characters@,
        )
    }

    /// Whether every value fits where the policy demands it.
    pub open spec fn spec_values_ok(self, values: Seq<u128>, policy: OnOverflow) -> bool {
        forall|i: int|
            0 <= i < self.names().len() ==> spec_name_ok(
                values[i],
                #[trigger] self.locs_of(i),
                policy,
            )
    }

    /// Name `i`'s location `j` holds the first slice that does not fit
    /// under the panic policy: every earlier name's value fits everywhere,
    /// and every earlier slice of name `i` fits its own location.
    pub open spec fn spec_first_overflow(self, values: Seq<u128>, i: int, j: int) -> bool {
        &&& 0 <= i < self.names().len()
        &&& 0 <= j < self.locs_of(i).len()
        &&& spec_seg_raw(values[i], self.locs_of(i), j) > low_mask(
            self.locs_of(i)[j].width as u128,
        )
        &&& forall|k: int|
            0 <= k < j ==> spec_seg_raw(values[i], self.locs_of(i), k) <= low_mask(
                (#[trigger] self.locs_of(i)[k]).width as u128,
            )
        &&& forall|k: int|
            0 <= k < i ==> spec_name_ok(values[k], #[trigger] self.locs_of(k), OnOverflow::Panic)
    }

    /// The failure the panic policy reports: the failing field's name, the
    /// offending slice value, and the mask of the slot it missed, all taken
    /// from the first slice that does not fit.
    pub open spec fn spec_overflow_error(self, values: Seq<u128>, e: TemplateError) -> bool {
        exists|i: int, j: int|
            #[trigger] self.spec_first_overflow(values, i, j) && e == (TemplateError::Overflow {
                name: self.names()[i],
                value: spec_seg_raw(values[i], self.locs_of(i), j),
                mask: low_mask(self.locs_of(i)[j].width as u128),
            })
    }

    /// The union of the first `i` names' location masks.
    pub open spec fn spec_replace_mask_prefix(self, i: int) -> u128
        decreases i,
    {
        if i <= 0 {
            0
        } else {
            self.spec_replace_mask_prefix(i - 1) | spec_locs_mask_prefix(
                self.locs_of(i - 1),
                self.locs_of(i - 1).len() as int,
            )
        }
    }

    /// The bits that a replacement overwrites: every name's locations, and
    /// the literal positions if the template has any literal digit.
    pub open spec fn spec_replace_mask(self) -> u128 {
        self.spec_replace_mask_prefix(self.names().len() as int) | (
        if spec_has_literal(self.characters@) {
            spec_literal_mask(self.characters@)
        } else {
            0
        })
    }

    /// The replace result: the target's bits outside the replacement mask,
    /// every name's value placed, and the template's literal bits.
    pub open spec fn spec_replaced(
        self,
        target: u128,
        values: Seq<u128>,
        policy: OnOverflow,
    ) -> u128 {
        (target & (!self.spec_replace_mask() & low_mask(self.width.spec_bit_count() as u128)))
            | self.spec_combined(values, policy)
    }

    /// Capture one value per name, in template order, and substitute them
    /// into the template: each value is split over its name's locations and
    /// placed under the overflow policy, and the literal bits are added.
    pub fn combine_with_context(&self, on_overflow: OnOverflow, values: &Vec<u128>) -> (r: Result<
        u128,
        TemplateError,
    >)
        requires
            self.wf(),
            values@.len() == self.names().len(),
            forall|i: int| 0 <= i < values@.len() ==> fits(#[trigger] values@[i], self.width.spec_bit_count() as u128),
        ensures
            r is Ok <==> self.spec_values_ok(values@, on_overflow),
            r matches Ok(v) ==> v == self.spec_combined(values@, on_overflow),
            r matches Err(e) ==> on_overflow is Panic && self.spec_overflow_error(values@, e),
    {
        let count = self.locations_by_name.len();
        let mut acc: u128 = 0;
        let mut i: usize = 0;
        while i < count
            invariant
                i <= count,
                count == self.names().len(),
                self.wf(),
                values@.len() == self.names().len(),
                acc == self.spec_combine_prefix(values@, on_overflow, i as int),
                forall|k: int|
                    0 <= k < i ==> spec_name_ok(values@[k], #[trigger] self.locs_of(k), on_overflow),
            decreases count - i,
        {
            let pair = &self.locations_by_name[i];
            match place_name(pair.0, values[i], &pair.1, self.width, on_overflow) {
                Ok(v) => {
                    acc = acc | v;
                },
                Err(e) => {
                    proof {
                        lemma_overflow_witness(*self, values@, i as int, on_overflow, e);
                    }
                    return Err(e);
                },
            }
            i = i + 1;
        }
        match self.characters.extract_literal() {
            Some(literal) => Ok(acc | literal),
            None => {
                proof {
                    crate::character::lemma_no_literal_value_zero(self.characters@);
                    crate::bits::lemma_or_zero(acc);
                }
                Ok(acc)
            },
        }
    }

    /// Substitute the supplied values into the template, one per name in
    /// template order; the count must match the number of names.
    pub fn combine_with_args(&self, on_overflow: OnOverflow, values: &Vec<u128>) -> (r: Result<
        u128,
        TemplateError,
    >)
        requires
            self.wf(),
            forall|i: int| 0 <= i < values@.len() ==> fits(#[trigger] values@[i], self.width.spec_bit_count() as u128),
        ensures
            values@.len() != self.names().len() ==> r == Err::<u128, TemplateError>(
                TemplateError::ArityMismatch {
                    expected: self.names().len() as usize,
                    actual: values@.len() as usize,
                },
            ),
            values@.len() == self.names().len() ==> {
                &&& (r is Ok <==> self.spec_values_ok(values@, on_overflow))
                &&& (r matches Ok(v) ==> v == self.spec_combined(values@, on_overflow))
                &&& (r matches Err(e) ==> on_overflow is Panic && self.spec_overflow_error(
                    values@,
                    e,
                ))
            },
    {
        if values.len() != self.locations_by_name.len() {
            return Err(
                TemplateError::ArityMismatch {
                    expected: self.locations_by_name.len(),
                    actual: values.len(),
                },
            );
        }
        self.combine_with_context(on_overflow, values)
    }

    /// Replace the bits of `target` that the template names or fixes: clear
    /// every named location and every literal position, then place one value
    /// per name and the literal bits.
    pub fn replace(&self, on_overflow: OnOverflow, target: u128, values: &Vec<u128>) -> (r: Result<
        u128,
        TemplateError,
    >)
        requires
            self.wf(),
            fits(target, self.width.spec_bit_count() as u128),
            values@.len() == self.names().len(),
            forall|i: int| 0 <= i < values@.len() ==> fits(#[trigger] values@[i], self.width.spec_bit_count() as u128),
        ensures
            r is Ok <==> self.spec_values_ok(values@, on_overflow),
            r matches Ok(v) ==> v == self.spec_replaced(target, values@, on_overflow),
            r matches Err(e) ==> on_overflow is Panic && self.spec_overflow_error(values@, e),
    {
        let count = self.locations_by_name.len();
        let mut replacement_mask: u128 = 0;
        let mut acc: u128 = 0;
        let mut i: usize = 0;
        while i < count
            invariant
                i <= count,
                count == self.names().len(),
                self.wf(),
                values@.len() == self.names().len(),
                acc == self.spec_combine_prefix(values@, on_overflow, i as int),
                replacement_mask == self.spec_replace_mask_prefix(i as int),
                forall|k: int|
                    0 <= k < i ==> spec_name_ok(values@[k], #[trigger] self.locs_of(k), on_overflow),
            decreases count - i,
        {
            let pair = &self.locations_by_name[i];
            match place_name(pair.0, values[i], &pair.1, self.width, on_overflow) {
                Ok(v) => {
                    acc = acc | v;
                },
                Err(e) => {
                    proof {
                        lemma_overflow_witness(*self, values@, i as int, on_overflow, e);
                    }
                    return Err(e);
                },
            }
            let locs = &pair.1;
            let n_locs = locs.len();
            proof {
                crate::bits::lemma_or_zero(self.spec_replace_mask_prefix(i as int));
            }
            let mut j: usize = 0;
            while j < n_locs
                invariant
                    j <= n_locs,
                    i < count,
                    count == self.names().len(),
                    self.wf(),
                    n_locs == self.locs_of(i as int).len(),
                    locs@ == self.locs_of(i as int),
                    replacement_mask == (self.spec_replace_mask_prefix(i as int)
                        | spec_locs_mask_prefix(self.locs_of(i as int), j as int)),
                decreases n_locs - j,
            {
                replacement_mask = replacement_mask | locs[j].to_mask();
                proof {
                    lemma_or_assoc(
                        self.spec_replace_mask_prefix(i as int),
                        spec_locs_mask_prefix(self.locs_of(i as int), j as int),
                        self.locs_of(i as int)[j as int].spec_mask(),
                    );
                }
                j = j + 1;
            }
            i = i + 1;
        }
        let mut literal_or: u128 = 0;
        match self.characters.extract_literal() {
            Some(literal) => {
                replacement_mask = replacement_mask | self.characters.literal_mask();
                literal_or = literal;
            },
            None => {
                proof {
                    crate::character::lemma_no_literal_value_zero(self.characters@);
                    crate::bits::lemma_or_zero(replacement_mask);
                }
            },
        }
        let n = self.width.bit_count();
        let cleared = target & (!replacement_mask & crate::bits::mask_bits(n));
        proof {
            crate::bits::lemma_or_zero(acc | literal_or);
            lemma_or_assoc(acc, literal_or, 0);
        }
        Ok(cleared | (acc | literal_or))
    }
}


/// A failing placement reported by one name is the template's first
/// overflow: the earlier names all fit, and the error carries the failing
/// name, slice value and slot mask.
proof fn lemma_overflow_witness(
    t: Template,
    values: Seq<u128>,
    i: int,
    policy: OnOverflow,
    e: TemplateError,
)
    requires
        t.wf(),
        values.len() == t.names().len(),
        0 <= i < t.names().len(),
        policy is Panic,
        forall|k: int| 0 <= k < i ==> spec_name_ok(values[k], #[trigger] t.locs_of(k), policy),
        exists|j: int|
            {
                &&& 0 <= j < t.locs_of(i).len()
                &&& spec_seg_raw(values[i], t.locs_of(i), j) > low_mask(
                    (#[trigger] t.locs_of(i)[j]).width as u128,
                )
                &&& (forall|k: int|
                    0 <= k < j ==> spec_seg_raw(values[i], t.locs_of(i), k) <= low_mask(
                        (#[trigger] t.locs_of(i)[k]).width as u128,
                    ))
                &&& e == (TemplateError::Overflow {
                    name: t.names()[i],
                    value: spec_seg_raw(values[i], t.locs_of(i), j),
                    mask: low_mask(t.locs_of(i)[j].width as u128),
                })
            },
    ensures
        t.spec_overflow_error(values, e),
{
    let j = choose|j: int|
        {
            &&& 0 <= j < t.locs_of(i).len()
            &&& spec_seg_raw(values[i], t.locs_of(i), j) > low_mask(
                (#[trigger] t.locs_of(i)[j]).width as u128,
            )
            &&& (forall|k: int|
                0 <= k < j ==> spec_seg_raw(values[i], t.locs_of(i), k) <= low_mask(
                    (#[trigger] t.locs_of(i)[k]).width as u128,
                ))
            &&& e == (TemplateError::Overflow {
                name: t.names()[i],
                value: spec_seg_raw(values[i], t.locs_of(i), j),
                mask: low_mask(t.locs_of(i)[j].width as u128),
            })
        };
    assert(t.spec_first_overflow(values, i, j));
}

/// Or is associative.
proof fn lemma_or_assoc(a: u128, b: u128, c: u128)
    by (bit_vector)
    ensures
        ((a | b) | c) == (a | (b | c)),
{
}

/// Place one name's value into its locations under the policy: each
/// location takes the value's next slice, lowest location first.  Under the
/// panic policy, a slice that exceeds its location fails.
#[verifier::rlimit(60)]
fn place_name(
    name: Name,
    var: u128,
    locations: &Vec<Location>,
    width: Type,
    on_overflow: OnOverflow,
) -> (r: Result<u128, TemplateError>)
    requires
        width.wf(),
        forall|j: int|
            0 <= j < locations@.len() ==> (#[trigger] locations@[j]).wf()
                && locations@[j].mask_offset + locations@[j].width <= width.spec_bit_count(),
        spec_width_sum(locations@) <= width.spec_bit_count(),
    ensures
        r is Ok <==> spec_name_ok(var, locations@, on_overflow),
        r matches Ok(v) ==> v == spec_name_value(
            var,
            locations@,
            width.spec_bit_count() as u128,
            on_overflow,
        ),
        r matches Err(e) ==> on_overflow is Panic && exists|j: int|
            {
                &&& 0 <= j < locations@.len()
                &&& spec_seg_raw(var, locations@, j) > low_mask((#[trigger] locations@[j]).width as u128)
                &&& (forall|k: int|
                    0 <= k < j ==> spec_seg_raw(var, locations@, k) <= low_mask(
                        (#[trigger] locations@[k]).width as u128,
                    ))
                &&& e == (TemplateError::Overflow {
                    name,
                    value: spec_seg_raw(var, locations@, j),
                    mask: low_mask(locations@[j].width as u128),
                })
            },
{
    let n_locs = locations.len();
    let nbits = width.bit_count();
    let mut acc: u128 = 0;
    let mut segment_offset: u8 = 0;
    let mut j: usize = 0;
    while j < n_locs
        invariant
            j <= n_locs,
            n_locs == locations@.len(),
            width.wf(),
            nbits == width.spec_bit_count(),
            forall|k: int|
                0 <= k < locations@.len() ==> (#[trigger] locations@[k]).wf()
                    && locations@[k].mask_offset + locations@[k].width <= width.spec_bit_count(),
            spec_width_sum(locations@) <= width.spec_bit_count(),
            segment_offset == spec_width_sum(locations@.take(j as int)),
            acc == spec_name_value_prefix(
                var,
                locations@,
                nbits as u128,
                on_overflow,
                j as int,
            ),
            forall|k: int|
                0 <= k < j ==> spec_seg_raw(var, locations@, k) <= low_mask(
                    (#[trigger] locations@[k]).width as u128,
                ) || !(on_overflow is Panic),
        decreases n_locs - j,
    {
        let loc = locations[j];
        proof {
            lemma_width_sum_take_step(locations@, j as int);
            lemma_width_sum_take_le(locations@, j + 1);
        }
        let raw = var >> segment_offset;
        let mask = loc.to_unshifted_mask();
        let seg = if j < n_locs - 1 {
            raw & mask
        } else {
            raw
        };
        let placed: u128 = match on_overflow {
            OnOverflow::Truncate => (seg & mask) << loc.mask_offset,
            OnOverflow::Corrupt => (seg << loc.mask_offset) & crate::bits::mask_bits(nbits),
            OnOverflow::Panic => {
                if seg > mask {
                    return Err(TemplateError::Overflow { name, value: seg, mask });
                }
                seg << loc.mask_offset
            },
            OnOverflow::Saturate => (
            if seg > mask {
                mask
            } else {
                seg
            }) << loc.mask_offset,
        };
        acc = acc | placed;
        segment_offset = segment_offset + loc.width;
        j = j + 1;
    }
    Ok(acc)
}

impl Template {
    /// The first `i` names' substituted values, combined: each name's value
    /// is the value of the field found under that name.
    pub open spec fn spec_substitute_prefix(self, models: Seq<FieldModel>, i: int) -> u128
        decreases i,
    {
        if i <= 0 {
            0
        } else {
            self.spec_substitute_prefix(models, i - 1) | (match spec_find(
                models,
                self.names()[i - 1],
            ) {
                Some(f) => spec_name_value(
                    spec_segments_value(f.segments),
                    self.locs_of(i - 1),
                    self.width.spec_bit_count() as u128,
                    OnOverflow::Corrupt,
                ),
                None => 0,
            })
        }
    }

    /// The substitute result: every name's field value placed into that
    /// name's output locations, with the template's literal bits.
    pub open spec fn spec_substituted(self, models: Seq<FieldModel>) -> u128 {
        self.spec_substitute_prefix(models, self.names().len() as int) | spec_literal_value(
            self.characters@,
        )
    }

    /// Whether the fields supply every template name, each with exactly the
    /// width the template gives that name.
    pub open spec fn spec_substitute_ok(self, models: Seq<FieldModel>) -> bool {
        forall|i: int|
            0 <= i < self.names().len() ==> match spec_find(models, #[trigger] self.names()[i]) {
                Some(f) => spec_seg_width_sum(f.segments) == spec_width_sum(self.locs_of(i)),
                None => false,
            }
    }

    /// Substitute fields into the template by name.  Every template name
    /// must be supplied by a field of exactly the width the template gives
    /// it; widths never truncate silently here.
    pub fn substitute_fields(&self, fields: Vec<Field>) -> (r: Result<u128, TemplateError>)
        requires
            self.wf(),
            forall|k: int| 0 <= k < fields@.len() ==> (#[trigger] fields@[k])@.wf(),
        ensures
            r is Ok <==> self.spec_substitute_ok(views(fields@)),
            r matches Ok(v) ==> v == self.spec_substituted(views(fields@)),
            r matches Err(e) ==> match e {
                TemplateError::MissingField { name } => exists|i: int|
                    0 <= i < self.names().len() && #[trigger] self.names()[i] == name && spec_find(
                        views(fields@),
                        name,
                    ) is None,
                TemplateError::WidthMismatch { name, field_width, template_width } => exists|i: int|
                    {
                        &&& 0 <= i < self.names().len()
                        &&& #[trigger] self.names()[i] == name
                        &&& spec_find(views(fields@), name) matches Some(f) && field_width
                            == spec_seg_width_sum(f.segments)
                        &&& template_width == spec_width_sum(self.locs_of(i))
                        &&& field_width != template_width
                    },
                _ => false,
            },
    {
        let count = self.locations_by_name.len();
        let mut acc: u128 = 0;
        let mut i: usize = 0;
        while i < count
            invariant
                i <= count,
                count == self.names().len(),
                self.wf(),
                forall|k: int| 0 <= k < fields@.len() ==> (#[trigger] fields@[k])@.wf(),
                acc == self.spec_substitute_prefix(views(fields@), i as int),
                forall|k: int|
                    0 <= k < i ==> match spec_find(views(fields@), #[trigger] self.names()[k]) {
                        Some(f) => spec_seg_width_sum(f.segments) == spec_width_sum(
                            self.locs_of(k),
                        ),
                        None => false,
                    },
            decreases count - i,
        {
            let pair = &self.locations_by_name[i];
            let name = pair.0;
            let locs = &pair.1;
            let idx = match find_field(&fields, name) {
                Some(ix) => ix,
                None => {
                    return Err(TemplateError::MissingField { name });
                },
            };
            let n_locs = locs.len();
            let mut expected: u8 = 0;
            let mut j: usize = 0;
            while j < n_locs
                invariant
                    j <= n_locs,
                    i < count,
                    count == self.names().len(),
                    self.wf(),
                    n_locs == self.locs_of(i as int).len(),
                    locs@ == self.locs_of(i as int),
                    expected == spec_width_sum(locs@.take(j as int)),
                decreases n_locs - j,
            {
                proof {
                    lemma_width_sum_take_step(locs@, j as int);
                    lemma_width_sum_take_le(locs@, j + 1);
                }
                expected = expected + locs[j].width;
                j = j + 1;
            }
            proof {
                assert(locs@.take(n_locs as int) =~= locs@);
            }
            let field_width = fields[idx].width();
            if field_width != expected {
                return Err(
                    TemplateError::WidthMismatch { name, field_width, template_width: expected },
                );
            }
            let widened = fields[idx].clone().widen(self.width);
            proof {
                let f = fields@[idx as int]@;
                let segs = spec_widen_segments(f.segments, self.width);
                lemma_seg_sum_widen(f.segments, self.width);
                assert forall|k: int| 0 <= k < segs.len() implies {
                    &&& (#[trigger] segs[k]).bounds()
                    &&& crate::bits::fits(segs[k].input, segs[k].t.spec_bit_count() as u128)
                    &&& segs[k].offset + segs[k].location.width <= spec_seg_width_sum(segs)
                    &&& segs[k].offset + segs[k].location.width <= segs[k].t.spec_bit_count()
                } by {
                    assert(f.segments[k].bounds());
                    crate::bits::lemma_fits_widen(
                        segs[k].input,
                        f.segments[k].t.spec_bit_count() as u128,
                        segs[k].t.spec_bit_count() as u128,
                    );
                }
                assert(widened@.evaluable());
                lemma_segments_value_widen(f.segments, self.width);
            }
            let value = widened.to_value().to_u128();
            let placed = match place_name(name, value, locs, self.width, OnOverflow::Corrupt) {
                Ok(v) => v,
                Err(_) => {
                    proof {
                        assert(false);
                    }
                    0
                },
            };
            acc = acc | placed;
            i = i + 1;
        }
        match self.characters.extract_literal() {
            Some(literal) => Ok(acc | literal),
            None => {
                proof {
                    crate::character::lemma_no_literal_value_zero(self.characters@);
                    crate::bits::lemma_or_zero(acc);
                }
                Ok(acc)
            },
        }
    }
}

/// In an ordered, separated location list, every earlier location ends
/// below every later location's start.
pub proof fn lemma_locs_pairwise(locs: Seq<Location>, k: int, j: int)
    requires
        forall|m: int|
            0 <= m < locs.len() - 1 ==> (#[trigger] locs[m]).mask_offset + locs[m].width < locs[m
                + 1].mask_offset,
        0 <= k < j < locs.len(),
    ensures
        locs[k].mask_offset + locs[k].width < locs[j].mask_offset,
    decreases j - k,
{
    if k + 1 < j {
        lemma_locs_pairwise(locs, k + 1, j);
    }
}

/// The first `j + 1` locations agree between any two decompositions of the
/// same name's bits.
proof fn lemma_runs_agree(s: Seq<Character>, name: Name, l1: Seq<Location>, l2: Seq<Location>, j: int)
    requires
        spec_locs_wf(s, name, l1),
        spec_locs_wf(s, name, l2),
        0 <= j < l1.len(),
    ensures
        j < l2.len(),
        forall|k: int| 0 <= k <= j ==> l1[k] == l2[k],
    decreases j,
{
    if j > 0 {
        lemma_runs_agree(s, name, l1, l2, j - 1);
    }
    let o1 = l1[j].mask_offset as int;
    let w1 = l1[j].width as int;
    // The bit at l1[j]'s start carries the name, so some run of l2 covers
    // it; none of the earlier runs can, so l2 has a run at index >= j.
    assert(spec_covered(l1, o1));
    assert(spec_char_at_bit(s, o1) == Character::Name(name));
    assert(spec_covered(l2, o1));
    let m = choose|m: int|
        0 <= m < l2.len() && (#[trigger] l2[m]).mask_offset <= o1 < l2[m].mask_offset
            + l2[m].width;
    if m < j {
        lemma_locs_pairwise(l1, m, j);
        assert(false);
    }
    if m > j {
        lemma_locs_pairwise(l2, j, m);
    }
    let o2 = l2[j].mask_offset as int;
    let w2 = l2[j].width as int;
    assert(o2 <= o1);
    // Symmetrically, l2[j]'s start bit is covered by l1 at index >= j.
    assert(spec_covered(l2, o2));
    assert(spec_char_at_bit(s, o2) == Character::Name(name));
    assert(spec_covered(l1, o2));
    let m2 = choose|m2: int|
        0 <= m2 < l1.len() && (#[trigger] l1[m2]).mask_offset <= o2 < l1[m2].mask_offset
            + l1[m2].width;
    if m2 < j {
        lemma_locs_pairwise(l2, m2, j);
        assert(false);
    }
    if m2 > j {
        lemma_locs_pairwise(l1, j, m2);
    }
    assert(o1 == o2);
    // Equal widths: a longer run on one side would put the name at a bit
    // just above the other side's run, which no location there covers.
    if w1 < w2 {
        assert(spec_covered(l2, o1 + w1));
        assert(spec_covered(l1, o1 + w1));
        let m3 = choose|m3: int|
            0 <= m3 < l1.len() && (#[trigger] l1[m3]).mask_offset <= o1 + w1 < l1[m3].mask_offset
                + l1[m3].width;
        if m3 < j {
            lemma_locs_pairwise(l1, m3, j);
        }
        if m3 > j {
            lemma_locs_pairwise(l1, j, m3);
        }
        assert(false);
    }
    if w2 < w1 {
        assert(spec_covered(l1, o2 + w2));
        assert(spec_covered(l2, o2 + w2));
        let m3 = choose|m3: int|
            0 <= m3 < l2.len() && (#[trigger] l2[m3]).mask_offset <= o2 + w2 < l2[m3].mask_offset
                + l2[m3].width;
        if m3 < j {
            lemma_locs_pairwise(l2, m3, j);
        }
        if m3 > j {
            lemma_locs_pairwise(l2, j, m3);
        }
        assert(false);
    }
}

/// A character sequence decomposes a name's bits into locations in exactly
/// one way.
pub proof fn lemma_locs_wf_unique(s: Seq<Character>, name: Name, l1: Seq<Location>, l2: Seq<Location>)
    requires
        spec_locs_wf(s, name, l1),
        spec_locs_wf(s, name, l2),
    ensures
        l1 == l2,
{
    if l1.len() == 0 && l2.len() == 0 {
        assert(l1 =~= l2);
    } else if l1.len() == 0 {
        assert(spec_covered(l2, l2[0].mask_offset as int));
        assert(spec_covered(l1, l2[0].mask_offset as int));
        assert(false);
    } else if l2.len() == 0 {
        assert(spec_covered(l1, l1[0].mask_offset as int));
        assert(spec_covered(l2, l1[0].mask_offset as int));
        assert(false);
    } else {
        lemma_runs_agree(s, name, l1, l2, l1.len() - 1);
        lemma_runs_agree(s, name, l2, l1, l2.len() - 1);
        assert(l1 =~= l2);
    }
}

/// Two resolved templates over the same characters and precision are the
/// same template, but for the backing store of their location lists.
pub proof fn lemma_template_unique(t1: Template, t2: Template)
    requires
        t1.wf(),
        t2.wf(),
        t1.characters@ == t2.characters@,
        t1.precision == t2.precision,
        t1.width == t2.width,
    ensures
        forall|i: int| 0 <= i < t1.names().len() ==> t1.locs_of(i) == t2.locs_of(i),
        t1.names() == t2.names(),
{
    assert forall|i: int| 0 <= i < t1.names().len() implies t1.locs_of(i) == t2.locs_of(i) by {
        lemma_locs_wf_unique(t1.characters@, t1.names()[i], t1.locs_of(i), t2.locs_of(i));
    }
}

proof fn lemma_combine_prefix_unique(
    t1: Template,
    t2: Template,
    values: Seq<u128>,
    policy: OnOverflow,
    i: int,
)
    requires
        t1.wf(),
        t2.wf(),
        t1.characters@ == t2.characters@,
        t1.precision == t2.precision,
        t1.width == t2.width,
        i <= t1.names().len(),
    ensures
        t1.spec_combine_prefix(values, policy, i) == t2.spec_combine_prefix(values, policy, i),
    decreases i,
{
    if i > 0 {
        lemma_combine_prefix_unique(t1, t2, values, policy, i - 1);
        if i - 1 < t1.names().len() {
            lemma_template_unique(t1, t2);
        }
    }
}

proof fn lemma_replace_mask_prefix_unique(t1: Template, t2: Template, i: int)
    requires
        t1.wf(),
        t2.wf(),
        t1.characters@ == t2.characters@,
        t1.precision == t2.precision,
        t1.width == t2.width,
        i <= t1.names().len(),
    ensures
        t1.spec_replace_mask_prefix(i) == t2.spec_replace_mask_prefix(i),
    decreases i,
{
    if i > 0 {
        lemma_replace_mask_prefix_unique(t1, t2, i - 1);
        if i - 1 < t1.names().len() {
            lemma_template_unique(t1, t2);
        }
    }
}

proof fn lemma_substitute_prefix_unique(
    t1: Template,
    t2: Template,
    models: Seq<FieldModel>,
    i: int,
)
    requires
        t1.wf(),
        t2.wf(),
        t1.characters@ == t2.characters@,
        t1.precision == t2.precision,
        t1.width == t2.width,
        i <= t1.names().len(),
    ensures
        t1.spec_substitute_prefix(models, i) == t2.spec_substitute_prefix(models, i),
    decreases i,
{
    if i > 0 {
        lemma_substitute_prefix_unique(t1, t2, models, i - 1);
        if i - 1 < t1.names().len() {
            lemma_template_unique(t1, t2);
        }
    }
}

/// Two resolutions of the same characters give every operation the same
/// meaning: combining, replacing and substituting agree, as does whether
/// the supplied values are accepted.
pub proof fn lemma_ops_unique(
    t1: Template,
    t2: Template,
    values: Seq<u128>,
    policy: OnOverflow,
    models: Seq<FieldModel>,
)
    requires
        t1.wf(),
        t2.wf(),
        t1.characters@ == t2.characters@,
        t1.precision == t2.precision,
        t1.width == t2.width,
    ensures
        t1.spec_combined(values, policy) == t2.spec_combined(values, policy),
        t1.spec_values_ok(values, policy) == t2.spec_values_ok(values, policy),
        t1.spec_replace_mask() == t2.spec_replace_mask(),
        t1.spec_replaced(
            arbitrary::<u128>(),
            values,
            policy,
        ) == t2.spec_replaced(arbitrary::<u128>(), values, policy),
        t1.spec_substituted(models) == t2.spec_substituted(models),
        t1.spec_substitute_ok(models) == t2.spec_substitute_ok(models),
        forall|e: TemplateError|
            #[trigger] t1.spec_overflow_error(values, e) == t2.spec_overflow_error(values, e),
{
    lemma_template_unique(t1, t2);
    assert forall|e: TemplateError|
        #[trigger] t1.spec_overflow_error(values, e) == t2.spec_overflow_error(values, e) by {
        if t1.spec_overflow_error(values, e) {
            let (i, j) = choose|i: int, j: int|
                #[trigger] t1.spec_first_overflow(values, i, j) && e == (TemplateError::Overflow {
                    name: t1.names()[i],
                    value: spec_seg_raw(values[i], t1.locs_of(i), j),
                    mask: low_mask(t1.locs_of(i)[j].width as u128),
                });
            assert(t2.spec_first_overflow(values, i, j));
        }
        if t2.spec_overflow_error(values, e) {
            let (i, j) = choose|i: int, j: int|
                #[trigger] t2.spec_first_overflow(values, i, j) && e == (TemplateError::Overflow {
                    name: t2.names()[i],
                    value: spec_seg_raw(values[i], t2.locs_of(i), j),
                    mask: low_mask(t2.locs_of(i)[j].width as u128),
                });
            assert(t1.spec_first_overflow(values, i, j));
        }
    }
    lemma_combine_prefix_unique(t1, t2, values, policy, t1.names().len() as int);
    lemma_replace_mask_prefix_unique(t1, t2, t1.names().len() as int);
    lemma_substitute_prefix_unique(t1, t2, models, t1.names().len() as int);
    assert forall|i: int|
        0 <= i < t1.names().len() && spec_name_ok(values[i], t1.locs_of(i), policy) implies
        spec_name_ok(values[i], #[trigger] t2.locs_of(i), policy) by {}
    assert forall|i: int|
        0 <= i < t1.names().len() && spec_name_ok(values[i], t2.locs_of(i), policy) implies
        spec_name_ok(values[i], #[trigger] t1.locs_of(i), policy) by {}
}

/// The field that extraction builds, as a constructed model: one segment
/// per location, packed upward in ascending location order.
pub open spec fn spec_extract_model(
    input: u128,
    input_type: Type,
    precision: Precision,
    min_size: Option<Type>,
    name: Name,
    locs: Seq<Location>,
) -> FieldModel {
    FieldModel {
        name,
        segments: Seq::new(
            locs.len(),
            |j: int|
                Segment {
                    input,
                    t: input_type,
                    location: locs[j],
                    offset: spec_width_sum(locs.take(j)) as u8,
                },
        ),
        bit_width: spec_field_type(spec_width_sum(locs) as u8, precision, min_size),
    }
}

/// A field satisfying the extraction contract is the extraction model.
pub proof fn lemma_extracted_is_model(
    f: FieldModel,
    input: u128,
    input_type: Type,
    precision: Precision,
    min_size: Option<Type>,
    name: Name,
    locs: Seq<Location>,
)
    requires
        spec_is_extracted_field(f, input, input_type, precision, min_size, name, locs),
    ensures
        f == spec_extract_model(input, input_type, precision, min_size, name, locs),
{
    let m = spec_extract_model(input, input_type, precision, min_size, name, locs);
    assert(f.segments =~= m.segments);
}

/// The models of every field extracted from `input` under this template.
pub open spec fn spec_extract_models(t: Template, input: u128) -> Seq<FieldModel> {
    Seq::new(
        t.names().len(),
        |i: int|
            spec_extract_model(
                input & low_mask(t.width.spec_bit_count() as u128),
                t.width,
                t.precision,
                None,
                t.names()[i],
                t.locs_of(i),
            ),
    )
}

/// Two resolutions of the same characters extract the same field models.
pub proof fn lemma_extract_models_unique(t1: Template, t2: Template, input: u128)
    requires
        t1.wf(),
        t2.wf(),
        t1.characters@ == t2.characters@,
        t1.precision == t2.precision,
        t1.width == t2.width,
    ensures
        spec_extract_models(t1, input) == spec_extract_models(t2, input),
{
    lemma_template_unique(t1, t2);
    assert(spec_extract_models(t1, input) =~= spec_extract_models(t2, input));
}

} // verus!
