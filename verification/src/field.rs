//! Fields: named collections of segments with an inferred result type.

use vstd::prelude::*;

use crate::bits::fits;
use crate::location::Location;
use crate::name::Name;
use crate::segment::Segment;
use crate::types::Precision;
use crate::types::Type;

verus! {

/// The value a field evaluates to: a boolean for single-bit boolean fields,
/// a number for everything else.
#[derive(PartialEq, Eq, Structural, Clone, Copy, Debug)]
pub enum FieldValue {
    Bool(bool),
    Num(u128),
}

impl FieldValue {
    /// The numeric reading of the value, with `true` as 1 and `false` as 0.
    pub open spec fn spec_to_u128(self) -> u128 {
        match self {
            FieldValue::Bool(b) => if b {
                1
            } else {
                0
            },
            FieldValue::Num(v) => v,
        }
    }

    /// The numeric reading of the value, with `true` as 1 and `false` as 0.
    #[verifier::when_used_as_spec(spec_to_u128)]
    pub fn to_u128(self) -> (r: u128)
        ensures
            r == self.spec_to_u128(),
    {
        match self {
            FieldValue::Bool(b) => if b {
                1
            } else {
                0
            },
            FieldValue::Num(v) => v,
        }
    }
}

/// The total width of a sequence of locations.
pub open spec fn spec_width_sum(locs: Seq<Location>) -> nat
    decreases locs.len(),
{
    if locs.len() == 0 {
        0
    } else {
        spec_width_sum(locs.drop_last()) + locs.last().width as nat
    }
}

/// The total width of a sequence of segments.
pub open spec fn spec_seg_width_sum(segs: Seq<Segment>) -> nat
    decreases segs.len(),
{
    if segs.len() == 0 {
        0
    } else {
        spec_seg_width_sum(segs.drop_last()) + segs.last().location.width as nat
    }
}

/// The value of a sequence of segments: each segment's bits, combined.
pub open spec fn spec_segments_value(segs: Seq<Segment>) -> u128
    decreases segs.len(),
{
    if segs.len() == 0 {
        0
    } else {
        spec_segments_value(segs.drop_last()) | segs.last().spec_value()
    }
}

/// One step of `spec_width_sum` over a prefix.
pub proof fn lemma_width_sum_take_step(locs: Seq<Location>, j: int)
    requires
        0 <= j < locs.len(),
    ensures
        spec_width_sum(locs.take(j + 1)) == spec_width_sum(locs.take(j)) + locs[j].width,
{
    assert(locs.take(j + 1).drop_last() =~= locs.take(j));
}

/// A prefix of locations is at most as wide as the whole.
pub proof fn lemma_width_sum_take_le(locs: Seq<Location>, j: int)
    requires
        0 <= j <= locs.len(),
    ensures
        spec_width_sum(locs.take(j)) <= spec_width_sum(locs),
    decreases locs.len() - j,
{
    if j == locs.len() {
        assert(locs.take(j) =~= locs);
    } else {
        lemma_width_sum_take_step(locs, j);
        lemma_width_sum_take_le(locs, j + 1);
    }
}

/// Locations of at least one bit each sum to at least their count.
pub proof fn lemma_width_sum_lb(locs: Seq<Location>)
    requires
        forall|j: int| 0 <= j < locs.len() ==> (#[trigger] locs[j]).wf(),
    ensures
        spec_width_sum(locs) >= locs.len(),
    decreases locs.len(),
{
    if locs.len() > 0 {
        lemma_width_sum_lb(locs.drop_last());
    }
}

/// One step of `spec_seg_width_sum` over a prefix.
pub proof fn lemma_seg_sum_take_step(segs: Seq<Segment>, j: int)
    requires
        0 <= j < segs.len(),
    ensures
        spec_seg_width_sum(segs.take(j + 1)) == spec_seg_width_sum(segs.take(j))
            + segs[j].location.width,
{
    assert(segs.take(j + 1).drop_last() =~= segs.take(j));
}

/// A prefix of segments is at most as wide as the whole.
pub proof fn lemma_seg_sum_take_le(segs: Seq<Segment>, j: int)
    requires
        0 <= j <= segs.len(),
    ensures
        spec_seg_width_sum(segs.take(j)) <= spec_seg_width_sum(segs),
    decreases segs.len() - j,
{
    if j == segs.len() {
        assert(segs.take(j) =~= segs);
    } else {
        lemma_seg_sum_take_step(segs, j);
        lemma_seg_sum_take_le(segs, j + 1);
    }
}

/// One step of `spec_segments_value` over a prefix.
pub proof fn lemma_segments_value_take_step(segs: Seq<Segment>, j: int)
    requires
        0 <= j < segs.len(),
    ensures
        spec_segments_value(segs.take(j + 1)) == (spec_segments_value(segs.take(j))
            | segs[j].spec_value()),
{
    assert(segs.take(j + 1).drop_last() =~= segs.take(j));
}

/// The ghost shape of a field: its name, its segments, and its result type.
pub struct FieldModel {
    pub name: Name,
    pub segments: Seq<Segment>,
    pub bit_width: Type,
}

impl FieldModel {
    /// A well-formed field has at least one segment, all of them within
    /// bounds and jointly no wider than the field's type; a boolean field is
    /// a single one-bit segment at offset zero.
    pub open spec fn wf(self) -> bool {
        &&& self.segments.len() >= 1
        &&& self.bit_width.wf()
        &&& forall|j: int|
            0 <= j < self.segments.len() ==> {
                &&& (#[trigger] self.segments[j]).bounds()
                &&& fits(self.segments[j].input, self.segments[j].t.spec_bit_count() as u128)
                &&& self.segments[j].offset + self.segments[j].location.width
                    <= spec_seg_width_sum(self.segments)
            }
        &&& spec_seg_width_sum(self.segments) <= self.bit_width.spec_bit_count()
        &&& self.bit_width is Bool ==> self.segments.len() == 1
            && self.segments[0].location.width == 1 && self.segments[0].offset == 0
    }

    /// A field is evaluable when each segment's slice lies inside its
    /// carrying type.
    pub open spec fn evaluable(self) -> bool {
        &&& self.wf()
        &&& forall|j: int|
            0 <= j < self.segments.len() ==> (#[trigger] self.segments[j]).offset
                + self.segments[j].location.width <= self.segments[j].t.spec_bit_count()
    }

    /// The field's numeric value.
    pub open spec fn spec_value(self) -> u128 {
        spec_segments_value(self.segments)
    }
}

/// The result type of a field of `total` bits under `precision`, raised to
/// `min_size` where that is wider.
pub open spec fn spec_field_type(total: u8, precision: Precision, min_size: Option<Type>) -> Type {
    let natural = Type::spec_for_field(total, precision);
    match min_size {
        Some(m) => if m.spec_wider_than(natural) {
            m
        } else {
            natural
        },
        None => natural,
    }
}

/// The inferred type of a field is always wide enough for the field.
pub proof fn lemma_field_type_fits(total: u8, precision: Precision, min_size: Option<Type>)
    requires
        1 <= total <= 128,
        min_size matches Some(m) ==> m.wf(),
    ensures
        spec_field_type(total, precision, min_size).wf(),
        spec_field_type(total, precision, min_size).spec_bit_count() >= total,
        spec_field_type(total, precision, min_size) is Bool ==> total == 1,
{
}

/// Segments shifted `n` bits further into their field's value.
pub open spec fn spec_shift_segments(segs: Seq<Segment>, n: u8) -> Seq<Segment> {
    segs.map_values(
        |s: Segment|
            Segment {
                input: s.input,
                t: s.t,
                location: s.location,
                offset: (s.offset + n) as u8,
            },
    )
}

/// Segments widened to carry at least type `t`.
pub open spec fn spec_widen_segments(segs: Seq<Segment>, t: Type) -> Seq<Segment> {
    segs.map_values(
        |s: Segment|
            Segment {
                input: s.input,
                t: if t.spec_wider_than(s.t) {
                    t
                } else {
                    s.t
                },
                location: s.location,
                offset: s.offset,
            },
    )
}

/// Widening segments does not change their widths.
pub proof fn lemma_seg_sum_widen(segs: Seq<Segment>, t: Type)
    ensures
        spec_seg_width_sum(spec_widen_segments(segs, t)) == spec_seg_width_sum(segs),
    decreases segs.len(),
{
    if segs.len() > 0 {
        assert(spec_widen_segments(segs, t).drop_last() =~= spec_widen_segments(
            segs.drop_last(),
            t,
        ));
        lemma_seg_sum_widen(segs.drop_last(), t);
    }
}

/// Widening segments does not change their value.
pub proof fn lemma_segments_value_widen(segs: Seq<Segment>, t: Type)
    ensures
        spec_segments_value(spec_widen_segments(segs, t)) == spec_segments_value(segs),
    decreases segs.len(),
{
    if segs.len() > 0 {
        assert(spec_widen_segments(segs, t).drop_last() =~= spec_widen_segments(
            segs.drop_last(),
            t,
        ));
        lemma_segments_value_widen(segs.drop_last(), t);
        assert(spec_widen_segments(segs, t).last().spec_value() == segs.last().spec_value());
    }
}

/// The concatenation of two fields of one name: the upper field's segments
/// are moved above the lower field's, and the type is the standard type of
/// the combined width.
pub open spec fn spec_concat(upper: FieldModel, lower: FieldModel) -> FieldModel {
    FieldModel {
        name: upper.name,
        segments: spec_shift_segments(
            upper.segments,
            spec_seg_width_sum(lower.segments) as u8,
        ) + lower.segments,
        bit_width: Type::spec_for_field(
            (upper.bit_width.spec_bit_count() + lower.bit_width.spec_bit_count()) as u8,
            Precision::Standard,
        ),
    }
}

/// The first field of the given name, if any.
pub open spec fn spec_find(fields: Seq<FieldModel>, name: Name) -> Option<FieldModel>
    decreases fields.len(),
{
    if fields.len() == 0 {
        None
    } else if fields.first().name == name {
        Some(fields.first())
    } else {
        spec_find(fields.drop_first(), name)
    }
}

/// The fields of `lower` whose names do not appear in `upper`, in order.
pub open spec fn spec_lower_only(upper: Seq<FieldModel>, lower: Seq<FieldModel>) -> Seq<FieldModel>
    decreases lower.len(),
{
    if lower.len() == 0 {
        Seq::<FieldModel>::empty()
    } else {
        let rest = spec_lower_only(upper, lower.drop_last());
        if spec_find(upper, lower.last().name) is None {
            rest.push(lower.last())
        } else {
            rest
        }
    }
}

/// The name-keyed union of two field lists: a name in both lists merges into
/// one concatenated field in the upper list's position; names of one list
/// alone pass through, the upper list's first and the lower list's appended.
pub open spec fn spec_merge(upper: Seq<FieldModel>, lower: Seq<FieldModel>) -> Seq<FieldModel> {
    Seq::new(
        upper.len(),
        |i: int|
            match spec_find(lower, upper[i].name) {
                Some(l) => spec_concat(upper[i], l),
                None => upper[i],
            },
    ) + spec_lower_only(upper, lower)
}


/// The names of a list of field models, in order.
pub open spec fn model_names(models: Seq<FieldModel>) -> Seq<Name> {
    models.map_values(|f: FieldModel| f.name)
}

/// Whether no two field models share a name.
pub open spec fn names_distinct(models: Seq<FieldModel>) -> bool {
    forall|i: int, j: int|
        0 <= i < j < models.len() ==> (#[trigger] models[i]).name != (#[trigger] models[j]).name
}

/// Whether every name shared between the two lists may be concatenated
/// without exceeding 128 bits.
pub open spec fn spec_merge_ok(upper: Seq<FieldModel>, lower: Seq<FieldModel>) -> bool {
    forall|i: int, j: int|
        0 <= i < upper.len() && 0 <= j < lower.len() && (#[trigger] upper[i]).name == (
        #[trigger] lower[j]).name ==> upper[i].bit_width.spec_bit_count()
            + lower[j].bit_width.spec_bit_count() <= 128
}

/// Appending segment lists adds their widths.
pub proof fn lemma_seg_sum_append(a: Seq<Segment>, b: Seq<Segment>)
    ensures
        spec_seg_width_sum(a + b) == spec_seg_width_sum(a) + spec_seg_width_sum(b),
    decreases b.len(),
{
    if b.len() == 0 {
        assert(a + b =~= a);
    } else {
        assert((a + b).drop_last() =~= a + b.drop_last());
        lemma_seg_sum_append(a, b.drop_last());
    }
}

/// Shifting segments does not change their widths.
pub proof fn lemma_seg_sum_shift(segs: Seq<Segment>, n: u8)
    ensures
        spec_seg_width_sum(spec_shift_segments(segs, n)) == spec_seg_width_sum(segs),
    decreases segs.len(),
{
    if segs.len() > 0 {
        assert(spec_shift_segments(segs, n).drop_last() =~= spec_shift_segments(
            segs.drop_last(),
            n,
        ));
        lemma_seg_sum_shift(segs.drop_last(), n);
    }
}

/// Concatenating two well-formed fields of at most 128 joint type bits
/// yields a well-formed field whose width is the sum of theirs.
pub proof fn lemma_concat_wf(u: FieldModel, l: FieldModel)
    requires
        u.wf(),
        l.wf(),
        u.bit_width.spec_bit_count() + l.bit_width.spec_bit_count() <= 128,
    ensures
        spec_concat(u, l).wf(),
        spec_seg_width_sum(spec_concat(u, l).segments) == spec_seg_width_sum(u.segments)
            + spec_seg_width_sum(l.segments),
        spec_concat(u, l).name == u.name,
{
    let c = spec_concat(u, l);
    let lw = spec_seg_width_sum(l.segments) as u8;
    let shifted = spec_shift_segments(u.segments, lw);
    lemma_seg_sum_shift(u.segments, lw);
    lemma_seg_sum_append(shifted, l.segments);
    lemma_field_type_fits(
        (u.bit_width.spec_bit_count() + l.bit_width.spec_bit_count()) as u8,
        crate::types::Precision::Standard,
        None,
    );
    assert forall|j: int| 0 <= j < c.segments.len() implies {
        &&& (#[trigger] c.segments[j]).bounds()
        &&& fits(c.segments[j].input, c.segments[j].t.spec_bit_count() as u128)
        &&& c.segments[j].offset + c.segments[j].location.width <= spec_seg_width_sum(c.segments)
    } by {
        if j < shifted.len() {
            assert(c.segments[j] == shifted[j]);
            assert(u.segments[j].bounds());
        } else {
            assert(c.segments[j] == l.segments[j - shifted.len()]);
            assert(l.segments[j - shifted.len()].bounds());
        }
    }
}

/// A name is absent from a list exactly when no field there carries it.
pub proof fn lemma_find_none_iff(models: Seq<FieldModel>, name: Name)
    ensures
        spec_find(models, name) is None <==> forall|i: int|
            0 <= i < models.len() ==> (#[trigger] models[i]).name != name,
    decreases models.len(),
{
    if models.len() > 0 {
        lemma_find_none_iff(models.drop_first(), name);
        if spec_find(models, name) is None {
            assert forall|i: int| 0 <= i < models.len() implies (#[trigger] models[i]).name
                != name by {
                if i > 0 {
                    assert(models.drop_first()[i - 1] == models[i]);
                }
            }
        } else {
            if models.first().name != name {
                let i = choose|i: int|
                    0 <= i < models.drop_first().len() && (#[trigger] models.drop_first()[
                        i]).name == name;
                assert(models[i + 1].name == name);
            }
        }
    }
}

/// What a find returns is a field of the list with the name looked for.
pub proof fn lemma_find_some(models: Seq<FieldModel>, name: Name)
    requires
        spec_find(models, name) is Some,
    ensures
        exists|i: int|
            0 <= i < models.len() && (#[trigger] models[i]) == spec_find(models, name).unwrap()
                && models[i].name == name,
    decreases models.len(),
{
    if models.len() > 0 {
        if models.first().name == name {
            assert(models[0] == spec_find(models, name).unwrap());
        } else {
            lemma_find_some(models.drop_first(), name);
            let i = choose|i: int|
                0 <= i < models.drop_first().len() && (#[trigger] models.drop_first()[i])
                    == spec_find(models.drop_first(), name).unwrap() && models.drop_first()[
                    i].name == name;
            assert(models[i + 1] == spec_find(models, name).unwrap());
        }
    }
}

/// The lower-only part of a merge: each of its fields comes from the lower
/// list and bears a name the upper list lacks; names stay distinct.
pub proof fn lemma_lower_only_props(upper: Seq<FieldModel>, lower: Seq<FieldModel>)
    requires
        names_distinct(lower),
    ensures
        forall|i: int|
            0 <= i < spec_lower_only(upper, lower).len() ==> lower.contains(
                #[trigger] spec_lower_only(upper, lower)[i],
            ),
        forall|i: int|
            0 <= i < spec_lower_only(upper, lower).len() ==> spec_find(
                upper,
                (#[trigger] spec_lower_only(upper, lower)[i]).name,
            ) is None,
        names_distinct(spec_lower_only(upper, lower)),
    decreases lower.len(),
{
    let lo = spec_lower_only(upper, lower);
    if lower.len() > 0 {
        let front = lower.drop_last();
        assert(names_distinct(front));
        lemma_lower_only_props(upper, front);
        let lo_front = spec_lower_only(upper, front);
        assert forall|i: int| 0 <= i < spec_lower_only(upper, lower).len() implies lower.contains(
            #[trigger] spec_lower_only(upper, lower)[i],
        ) && spec_find(upper, spec_lower_only(upper, lower)[i].name) is None by {
            if i < lo_front.len() {
                assert(spec_lower_only(upper, lower)[i] == spec_lower_only(upper, front)[i]);
                assert(front.contains(lo_front[i]));
                let j = choose|j: int| 0 <= j < front.len() && front[j] == lo_front[i];
                assert(lower[j] == front[j]);
                assert(lower.contains(lower[j]));
            } else {
                assert(spec_find(upper, lower.last().name) is None);
                assert(spec_lower_only(upper, lower)[i] == lower[lower.len() - 1]);
                assert(lower.contains(lower[lower.len() - 1]));
            }
        }
        assert forall|i: int, k: int| 0 <= i < k < lo.len() implies (#[trigger] lo[i]).name != (
        #[trigger] lo[k]).name by {
            if k < lo_front.len() {
                assert(lo[i] == lo_front[i] && lo[k] == lo_front[k]);
            } else {
                assert(lo[k] == lower.last());
                assert(lo[i] == spec_lower_only(upper, front)[i]);
                assert(front.contains(lo_front[i]));
                let j = choose|j: int| 0 <= j < front.len() && front[j] == lo_front[i];
                assert(lower[j] == front[j]);
                assert(lower[j].name != lower[lower.len() - 1].name);
            }
        }
    } else {
        assert(spec_lower_only(upper, lower).len() == 0);
    }
}


/// What a merge produces: one field per upper field under its name, then
/// the lower-only fields; everything well formed, names distinct.
pub proof fn lemma_merge_props(upper: Seq<FieldModel>, lower: Seq<FieldModel>)
    requires
        forall|i: int| 0 <= i < upper.len() ==> (#[trigger] upper[i]).wf(),
        forall|i: int| 0 <= i < lower.len() ==> (#[trigger] lower[i]).wf(),
        names_distinct(upper),
        names_distinct(lower),
        spec_merge_ok(upper, lower),
    ensures
        spec_merge(upper, lower).len() == upper.len() + spec_lower_only(upper, lower).len(),
        forall|i: int|
            0 <= i < spec_merge(upper, lower).len() ==> (#[trigger] spec_merge(upper, lower)[
                i]).wf(),
        forall|i: int|
            0 <= i < upper.len() ==> (#[trigger] spec_merge(upper, lower)[i]).name
                == upper[i].name,
        names_distinct(spec_merge(upper, lower)),
{
    let m = spec_merge(upper, lower);
    let lo = spec_lower_only(upper, lower);
    lemma_lower_only_props(upper, lower);
    assert forall|i: int| 0 <= i < m.len() implies (#[trigger] m[i]).wf() && (i < upper.len()
        ==> m[i].name == upper[i].name) by {
        if i < upper.len() {
            match spec_find(lower, upper[i].name) {
                Some(l) => {
                    lemma_find_some(lower, upper[i].name);
                    let j = choose|j: int|
                        0 <= j < lower.len() && (#[trigger] lower[j]) == spec_find(
                            lower,
                            upper[i].name,
                        ).unwrap() && lower[j].name == upper[i].name;
                    lemma_concat_wf(upper[i], l);
                },
                None => {},
            }
        } else {
            assert(m[i] == lo[i - upper.len()]);
            assert(lower.contains(lo[i - upper.len()]));
            let j = choose|j: int| 0 <= j < lower.len() && lower[j] == lo[i - upper.len()];
        }
    }
    assert forall|i: int, k: int| 0 <= i < k < m.len() implies (#[trigger] m[i]).name != (
    #[trigger] m[k]).name by {
        if k < upper.len() {
            assert(m[i].name == upper[i].name && m[k].name == upper[k].name);
        } else {
            assert(m[k] == lo[k - upper.len()]);
            assert(spec_find(upper, lo[k - upper.len()].name) is None);
            lemma_find_none_iff(upper, lo[k - upper.len()].name);
            if i < upper.len() {
                assert(m[i].name == upper[i].name);
            } else {
                assert(m[i] == lo[i - upper.len()]);
            }
        }
    }
}

/// The names of a character sequence are distinct.
pub proof fn lemma_spec_names_distinct_rec(s: Seq<crate::character::Character>)
    ensures
        forall|i: int, j: int|
            0 <= i < j < crate::character::spec_names(s).len()
                ==> crate::character::spec_names(s)[i] != crate::character::spec_names(s)[j],
    decreases s.len(),
{
    if s.len() > 0 {
        lemma_spec_names_distinct_rec(s.drop_last());
        let prefix = crate::character::spec_names(s.drop_last());
        match s.last().spec_to_name() {
            Some(name) => {
                if !prefix.contains(name) {
                    assert forall|i: int, j: int|
                        0 <= i < j < crate::character::spec_names(s).len() implies
                        crate::character::spec_names(s)[i] != crate::character::spec_names(
                        s,
                    )[j] by {
                        if j < prefix.len() {
                        } else {
                            assert(crate::character::spec_names(s)[j] == name);
                            assert(crate::character::spec_names(s)[i] == prefix[i]);
                        }
                    }
                }
            },
            None => {},
        }
    }
}

/// The views of a list of fields.
pub open spec fn views(fields: Seq<Field>) -> Seq<FieldModel> {
    fields.map_values(|f: Field| f@)
}

/// Pushing a field pushes its view.
pub proof fn lemma_views_push(fields: Seq<Field>, f: Field)
    ensures
        views(fields.push(f)) =~= views(fields).push(f@),
{
}

/// A bit field to be extracted from input in accordance with a template.  A
/// field can be split over multiple segments in different locations of the
/// template.
#[derive(Debug)]
pub struct Field {
    pub name: Name,
    pub segments: Vec<Segment>,
    pub bit_width: Type,
}

impl View for Field {
    type V = FieldModel;

    open spec fn view(&self) -> FieldModel {
        FieldModel { name: self.name, segments: self.segments@, bit_width: self.bit_width }
    }
}

/// A copy of a vector of segments.
fn copy_segments(segments: &Vec<Segment>) -> (r: Vec<Segment>)
    ensures
        r@ == segments@,
{
    let n = segments.len();
    let mut r: Vec<Segment> = Vec::new();
    let mut i: usize = 0;
    while i < n
        invariant
            i <= n,
            n == segments@.len(),
            r@ =~= segments@.take(i as int),
        decreases n - i,
    {
        r.push(segments[i]);
        proof {
            assert(r@ =~= segments@.take(i + 1));
        }
        i = i + 1;
    }
    proof {
        assert(segments@.take(n as int) =~= segments@);
    }
    r
}

impl Clone for Field {
    /// A clone of a field carries the same name, segments and type.
    fn clone(&self) -> (r: Field)
        ensures
            r@ == self@,
    {
        Field {
            name: self.name,
            segments: copy_segments(&self.segments),
            bit_width: self.bit_width,
        }
    }
}

impl Field {
    /// Create a new field, given the input value and the segment locations
    /// within the input.  By default the field gets the smallest type that
    /// stores it; a wider `min_size` overrides that.
    pub fn new(
        name: Name,
        input_type: Type,
        input: u128,
        precision: Precision,
        min_size: Option<Type>,
        locations: &Vec<Location>,
    ) -> (r: Field)
        requires
            input_type.wf(),
            fits(input, input_type.spec_bit_count() as u128),
            locations@.len() >= 1,
            forall|j: int| 0 <= j < locations@.len() ==> (#[trigger] locations@[j]).wf(),
            spec_width_sum(locations@) <= input_type.spec_bit_count(),
            min_size matches Some(m) ==> m.wf(),
        ensures
            r@.name == name,
            r@.segments.len() == locations@.len(),
            forall|j: int|
                0 <= j < locations@.len() ==> r@.segments[j] == (Segment {
                    input,
                    t: input_type,
                    location: locations@[j],
                    offset: spec_width_sum(locations@.take(j)) as u8,
                }),
            r@.bit_width == spec_field_type(
                spec_width_sum(locations@) as u8,
                precision,
                min_size,
            ),
            spec_seg_width_sum(r@.segments) == spec_width_sum(locations@),
            r@.evaluable(),
    {
        let n = locations.len();
        let mut segments: Vec<Segment> = Vec::new();
        let mut segment_offset: u8 = 0;
        let mut j: usize = 0;
        while j < n
            invariant
                j <= n,
                n == locations@.len(),
                n >= 1,
                forall|k: int| 0 <= k < n ==> (#[trigger] locations@[k]).wf(),
                spec_width_sum(locations@) <= input_type.spec_bit_count(),
                input_type.wf(),
                segment_offset == spec_width_sum(locations@.take(j as int)),
                segments@.len() == j,
                forall|k: int|
                    0 <= k < j ==> segments@[k] == (Segment {
                        input,
                        t: input_type,
                        location: locations@[k],
                        offset: spec_width_sum(locations@.take(k)) as u8,
                    }),
                spec_seg_width_sum(segments@) == spec_width_sum(locations@.take(j as int)),
            decreases n - j,
        {
            let location = locations[j];
            proof {
                lemma_width_sum_take_step(locations@, j as int);
                lemma_width_sum_take_le(locations@, j + 1);
                lemma_width_sum_take_le(locations@, j as int);
                lemma_width_sum_lb(locations@.take(j as int));
            }
            let ghost prev = segments@;
            segments.push(Segment::new(input, input_type, location, segment_offset));
            proof {
                assert(segments@.drop_last() =~= prev);
                assert(segments@.take(j as int) =~= prev);
            }
            segment_offset = segment_offset + location.width;
            j = j + 1;
        }
        proof {
            assert(locations@.take(n as int) =~= locations@);
            lemma_width_sum_lb(locations@);
        }
        let total = segment_offset;
        let mut bit_width = Type::for_field(total, precision);
        if let Some(m) = min_size {
            if m.wider_than(bit_width) {
                bit_width = m;
            }
        }
        let r = Field { name, segments, bit_width };
        proof {
            lemma_field_type_fits(total, precision, min_size);
            assert forall|k: int| 0 <= k < r@.segments.len() implies {
                &&& (#[trigger] r@.segments[k]).bounds()
                &&& fits(r@.segments[k].input, r@.segments[k].t.spec_bit_count() as u128)
                &&& r@.segments[k].offset + r@.segments[k].location.width <= spec_seg_width_sum(
                    r@.segments,
                )
                &&& r@.segments[k].offset + r@.segments[k].location.width
                    <= r@.segments[k].t.spec_bit_count()
            } by {
                lemma_width_sum_take_step(locations@, k);
                lemma_width_sum_take_le(locations@, k + 1);
                lemma_width_sum_take_le(locations@, k);
            }
        }
        r
    }

    /// Evaluate the field: a boolean field compares its single bit with
    /// zero, a numeric field combines its segments' bits.
    pub fn to_value(&self) -> (r: FieldValue)
        requires
            self@.evaluable(),
        ensures
            self@.bit_width is Bool ==> r == FieldValue::Bool(
                self@.segments[0].spec_value() != 0,
            ),
            !(self@.bit_width is Bool) ==> r == FieldValue::Num(self@.spec_value()),
    {
        if self.bit_width == Type::Bool {
            FieldValue::Bool(self.segments[0].to_value() != 0)
        } else {
            let n = self.segments.len();
            let mut acc: u128 = 0;
            let mut j: usize = 0;
            while j < n
                invariant
                    j <= n,
                    n == self@.segments.len(),
                    self@.evaluable(),
                    acc == spec_segments_value(self@.segments.take(j as int)),
                decreases n - j,
            {
                proof {
                    lemma_segments_value_take_step(self@.segments, j as int);
                }
                acc = acc | self.segments[j].to_value();
                j = j + 1;
            }
            proof {
                assert(self@.segments.take(n as int) =~= self@.segments);
            }
            FieldValue::Num(acc)
        }
    }

    /// Merge two collections of fields into one: fields sharing a name are
    /// concatenated, upper fields above lower ones; the rest pass through.
    pub fn merge(upper: &Vec<Field>, lower: &Vec<Field>) -> (r: Vec<Field>)
        requires
            forall|i: int| 0 <= i < upper@.len() ==> (#[trigger] upper@[i])@.wf(),
            forall|i: int| 0 <= i < lower@.len() ==> (#[trigger] lower@[i])@.wf(),
            forall|i: int, j: int|
                0 <= i < upper@.len() && 0 <= j < lower@.len() && upper@[i].name == lower@[j].name
                    ==> upper@[i].bit_width.spec_bit_count() + lower@[j].bit_width.spec_bit_count()
                    <= 128,
        ensures
            views(r@) == spec_merge(views(upper@), views(lower@)),
    {
        let upper_len = upper.len();
        let lower_len = lower.len();
        let mut result: Vec<Field> = Vec::new();
        let mut i: usize = 0;
        while i < upper_len
            invariant
                i <= upper_len,
                upper_len == upper@.len(),
                lower_len == lower@.len(),
                forall|k: int| 0 <= k < upper@.len() ==> (#[trigger] upper@[k])@.wf(),
                forall|k: int| 0 <= k < lower@.len() ==> (#[trigger] lower@[k])@.wf(),
                forall|k: int, j: int|
                    0 <= k < upper@.len() && 0 <= j < lower@.len() && upper@[k].name
                        == lower@[j].name ==> upper@[k].bit_width.spec_bit_count()
                        + lower@[j].bit_width.spec_bit_count() <= 128,
                result@.len() == i,
                forall|k: int|
                    0 <= k < i ==> views(result@)[k] == match spec_find(
                        views(lower@),
                        upper@[k].name,
                    ) {
                        Some(l) => spec_concat(upper@[k]@, l),
                        None => upper@[k]@,
                    },
            decreases upper_len - i,
        {
            let ghost prev = result@;
            let u = &upper[i];
            match find_field(lower, u.name) {
                Some(l_index) => {
                    let merged = u.concat(&lower[l_index]);
                    result.push(merged);
                    proof {
                        lemma_views_push(prev, merged);
                    }
                },
                None => {
                    let copy = u.clone();
                    result.push(copy);
                    proof {
                        lemma_views_push(prev, copy);
                        assert(copy@ == upper@[i as int]@);
                    }
                },
            }
            i = i + 1;
        }
        proof {
            assert(views(result@).skip(upper_len as int) =~= spec_lower_only(
                views(upper@),
                views(lower@).take(0),
            ));
        }
        let mut j: usize = 0;
        while j < lower_len
            invariant
                j <= lower_len,
                upper_len == upper@.len(),
                lower_len == lower@.len(),
                result@.len() >= upper_len,
                forall|k: int|
                    0 <= k < upper_len ==> views(result@)[k] == match spec_find(
                        views(lower@),
                        upper@[k].name,
                    ) {
                        Some(l) => spec_concat(upper@[k]@, l),
                        None => upper@[k]@,
                    },
                views(result@).skip(upper_len as int) == spec_lower_only(
                    views(upper@),
                    views(lower@).take(j as int),
                ),
            decreases lower_len - j,
        {
            proof {
                assert(views(lower@).take(j + 1).drop_last() =~= views(lower@).take(j as int));
                assert(views(lower@).take(j + 1).last() == lower@[j as int]@);
            }
            let l = &lower[j];
            if find_field(upper, l.name).is_none() {
                let ghost prev = result@;
                let copy = l.clone();
                result.push(copy);
                proof {
                    lemma_views_push(prev, copy);
                    assert(copy@ == lower@[j as int]@);
                }
            }
            proof {
                assert(views(result@).skip(upper_len as int) =~= spec_lower_only(
                    views(upper@),
                    views(lower@).take(j + 1),
                ));
            }
            j = j + 1;
        }
        proof {
            assert(views(lower@).take(lower_len as int) =~= views(lower@));
            assert(views(result@) =~= spec_merge(views(upper@), views(lower@)));
        }
        result
    }

    /// Combine two fields of the same name into one, this field's bits above
    /// the other's.
    pub fn concat(&self, lower: &Field) -> (r: Field)
        requires
            self@.wf(),
            lower@.wf(),
            self.name == lower.name,
            self.bit_width.spec_bit_count() + lower.bit_width.spec_bit_count() <= 128,
        ensures
            r@ == spec_concat(self@, lower@),
    {
        let lower_width = lower.width();
        let n = self.segments.len();
        let mut new_segments: Vec<Segment> = Vec::new();
        let mut i: usize = 0;
        while i < n
            invariant
                i <= n,
                n == self@.segments.len(),
                self@.wf(),
                lower_width == spec_seg_width_sum(lower@.segments),
                lower_width <= lower.bit_width.spec_bit_count(),
                self.bit_width.spec_bit_count() + lower.bit_width.spec_bit_count() <= 128,
                new_segments@ =~= spec_shift_segments(self@.segments, lower_width).take(i as int),
            decreases n - i,
        {
            let mut segment = self.segments[i];
            let shifted = segment.set_output_offset(lower_width);
            new_segments.push(shifted);
            proof {
                assert(new_segments@ =~= spec_shift_segments(self@.segments, lower_width).take(
                    i + 1,
                ));
            }
            i = i + 1;
        }
        let m = lower.segments.len();
        let mut j: usize = 0;
        while j < m
            invariant
                j <= m,
                m == lower@.segments.len(),
                new_segments@ =~= spec_shift_segments(self@.segments, lower_width)
                    + lower@.segments.take(j as int),
            decreases m - j,
        {
            new_segments.push(lower.segments[j]);
            proof {
                assert(new_segments@ =~= spec_shift_segments(self@.segments, lower_width)
                    + lower@.segments.take(j + 1));
            }
            j = j + 1;
        }
        proof {
            assert(lower@.segments.take(m as int) =~= lower@.segments);
        }
        Field {
            name: self.name,
            segments: new_segments,
            bit_width: self.bit_width.concat(lower.bit_width),
        }
    }

    /// Raise the field's carrying type, and every segment's, only where the
    /// new type is wider; a narrower type changes nothing.
    pub fn widen(self, new_bit_width: Type) -> (r: Field)
        ensures
            r@.name == self@.name,
            r@.segments == spec_widen_segments(self@.segments, new_bit_width),
            r@.bit_width == (if new_bit_width.spec_wider_than(self@.bit_width) {
                new_bit_width
            } else {
                self@.bit_width
            }),
    {
        let n = self.segments.len();
        let mut new_segments: Vec<Segment> = Vec::new();
        let mut i: usize = 0;
        while i < n
            invariant
                i <= n,
                n == self@.segments.len(),
                new_segments@ =~= spec_widen_segments(self@.segments, new_bit_width).take(i as int),
            decreases n - i,
        {
            let mut segment = self.segments[i];
            let widened = segment.widen(new_bit_width);
            new_segments.push(widened);
            proof {
                assert(new_segments@ =~= spec_widen_segments(self@.segments, new_bit_width).take(
                    i + 1,
                ));
            }
            i = i + 1;
        }
        proof {
            assert(spec_widen_segments(self@.segments, new_bit_width).take(n as int)
                =~= spec_widen_segments(self@.segments, new_bit_width));
        }
        let bit_width = if new_bit_width.wider_than(self.bit_width) {
            new_bit_width
        } else {
            self.bit_width
        };
        Field { name: self.name, segments: new_segments, bit_width }
    }

    /// The field's single-letter name.
    pub fn name(&self) -> (r: Name)
        ensures
            r == self@.name,
    {
        self.name
    }

    /// The field's result type.
    pub fn bit_width(&self) -> (r: Type)
        ensures
            r == self@.bit_width,
    {
        self.bit_width
    }

    /// How many bits the field's segments hold together.
    pub fn width(&self) -> (r: u8)
        requires
            self@.wf(),
        ensures
            r == spec_seg_width_sum(self@.segments),
    {
        let n = self.segments.len();
        let mut acc: u8 = 0;
        let mut j: usize = 0;
        while j < n
            invariant
                j <= n,
                n == self@.segments.len(),
                self@.wf(),
                acc == spec_seg_width_sum(self@.segments.take(j as int)),
            decreases n - j,
        {
            proof {
                lemma_seg_sum_take_step(self@.segments, j as int);
                lemma_seg_sum_take_le(self@.segments, j + 1);
            }
            acc = acc + self.segments[j].width();
            j = j + 1;
        }
        proof {
            assert(self@.segments.take(n as int) =~= self@.segments);
        }
        acc
    }
}

/// The index of the first field with the given name, if any.
pub(crate) fn find_field(fields: &Vec<Field>, name: Name) -> (r: Option<usize>)
    ensures
        r matches Some(i) ==> i < fields@.len() && fields@[i as int].name == name && spec_find(
            views(fields@),
            name,
        ) == Some(fields@[i as int]@),
        r is None ==> spec_find(views(fields@), name) is None,
{
    let n = fields.len();
    proof {
        assert(views(fields@).skip(0) =~= views(fields@));
    }
    let mut i: usize = 0;
    while i < n
        invariant
            i <= n,
            n == fields@.len(),
            spec_find(views(fields@), name) == spec_find(views(fields@).skip(i as int), name),
        decreases n - i,
    {
        proof {
            assert(views(fields@).skip(i as int).drop_first() =~= views(fields@).skip(i + 1));
            assert(views(fields@).skip(i as int).first() == fields@[i as int]@);
        }
        if fields[i].name == name {
            return Some(i);
        }
        i = i + 1;
    }
    proof {
        assert(views(fields@).skip(n as int) =~= Seq::<FieldModel>::empty());
    }
    None
}

} // verus!
