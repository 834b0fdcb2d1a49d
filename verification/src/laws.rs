//! Whole-template laws: what the operations guarantee jointly.

use vstd::prelude::*;

use crate::base::Base;
use crate::character::Character;
use crate::character::spec_parse;
use crate::field::FieldModel;
use crate::field::spec_concat;
use crate::field::spec_find;
use crate::field::spec_lower_only;
use crate::field::spec_merge;
use crate::field::spec_seg_width_sum;
use crate::field::spec_shift_segments;
use crate::field::lemma_concat_wf;
use crate::field::lemma_find_none_iff;
use crate::field::lemma_find_some;
use crate::bits::fits;
use crate::bits::low_mask;
use crate::bits::nth_bit;
use crate::bits::lemma_bit_and;
use crate::bits::lemma_bit_ext;
use crate::bits::lemma_bit_mask;
use crate::bits::lemma_bit_or;
use crate::bits::lemma_bit_shl;
use crate::bits::lemma_bit_shr;
use crate::bits::lemma_bit_zero;
use crate::bits::lemma_fits_bit;
use crate::bits::lemma_or_zero;
use crate::character::spec_has_literal;
use crate::character::spec_has_placeholders;
use crate::character::spec_names;
use crate::character::lemma_no_literal_value_zero;
use crate::field::spec_segments_value;
use crate::field::spec_width_sum;
use crate::field::lemma_width_sum_take_le;
use crate::field::lemma_width_sum_take_step;
use crate::location::Location;
use crate::location::OnOverflow;
use crate::name::Name;
use crate::segment::Segment;
use crate::template::Template;
use crate::template::spec_char_at_bit;
use crate::template::spec_covered;
use crate::template::spec_extract_model;
use crate::template::spec_name_value;
use crate::template::spec_name_value_prefix;
use crate::template::lemma_locs_pairwise;
use crate::template::spec_place_one;
use crate::template::spec_seg_raw;
use crate::types::Precision;
use crate::types::Type;

verus! {

/// The characters of `text` that are not formatting whitespace.
pub open spec fn spec_nonspace_count(text: Seq<char>) -> nat
    decreases text.len(),
{
    if text.len() == 0 {
        0
    } else {
        spec_nonspace_count(text.drop_last()) + (if text.last() == ' ' {
            0nat
        } else {
            1nat
        })
    }
}

/// A parsed template holds one character per non-space character of its
/// text and bit of the base's digit width: whitespace is purely cosmetic.
pub proof fn lemma_character_count(text: Seq<char>, base: Base, s: Seq<Character>)
    requires
        spec_parse(text, base) == Some(s),
    ensures
        s.len() == spec_nonspace_count(text) * base.spec_bits_per_digit(),
    decreases text.len(),
{
    if text.len() == 0 {
        assert(s.len() == 0);
    } else {
        let front = spec_parse(text.drop_last(), base);
        let expansion = crate::character::spec_expand_char(text.last(), base);
        lemma_character_count(text.drop_last(), base, front.unwrap());
        if text.last() == ' ' {
            assert(expansion.unwrap().len() == 0);
        } else {
            assert(expansion.unwrap().len() == base.spec_bits_per_digit());
        }
        vstd::arithmetic::mul::lemma_mul_is_distributive_add_other_way(
            base.spec_bits_per_digit() as int,
            spec_nonspace_count(text.drop_last()) as int,
            (if text.last() == ' ' {
                0int
            } else {
                1int
            }),
        );
    }
}

/// If no name of `lower` appears in `upper`, the lower-only part of the
/// merge is all of `lower`.
proof fn lemma_lower_only_all(upper: Seq<FieldModel>, lower: Seq<FieldModel>)
    requires
        forall|j: int|
            0 <= j < lower.len() ==> spec_find(upper, (#[trigger] lower[j]).name) is None,
    ensures
        spec_lower_only(upper, lower) == lower,
    decreases lower.len(),
{
    if lower.len() == 0 {
        assert(spec_lower_only(upper, lower) =~= lower);
    } else {
        lemma_lower_only_all(upper, lower.drop_last());
        assert(spec_lower_only(upper, lower) =~= lower);
    }
}

/// Merging field lists with no shared name concatenates them.
pub proof fn lemma_merge_disjoint(upper: Seq<FieldModel>, lower: Seq<FieldModel>)
    requires
        forall|i: int, j: int|
            0 <= i < upper.len() && 0 <= j < lower.len() ==> (#[trigger] upper[i]).name != (
            #[trigger] lower[j]).name,
    ensures
        spec_merge(upper, lower) == upper + lower,
{
    assert forall|i: int| 0 <= i < upper.len() implies spec_find(
        lower,
        (#[trigger] upper[i]).name,
    ) is None by {
        lemma_find_none_iff(lower, upper[i].name);
    }
    assert forall|j: int| 0 <= j < lower.len() implies spec_find(
        upper,
        (#[trigger] lower[j]).name,
    ) is None by {
        lemma_find_none_iff(upper, lower[j].name);
    }
    lemma_lower_only_all(upper, lower);
    assert(spec_merge(upper, lower) =~= upper + lower);
}

/// Over pairwise disjoint name sets, merging is associative.
pub proof fn lemma_merge_associative(a: Seq<FieldModel>, b: Seq<FieldModel>, c: Seq<FieldModel>)
    requires
        forall|i: int, j: int|
            0 <= i < a.len() && 0 <= j < b.len() ==> (#[trigger] a[i]).name != (
            #[trigger] b[j]).name,
        forall|i: int, j: int|
            0 <= i < b.len() && 0 <= j < c.len() ==> (#[trigger] b[i]).name != (
            #[trigger] c[j]).name,
        forall|i: int, j: int|
            0 <= i < a.len() && 0 <= j < c.len() ==> (#[trigger] a[i]).name != (
            #[trigger] c[j]).name,
    ensures
        spec_merge(spec_merge(a, b), c) == spec_merge(a, spec_merge(b, c)),
{
    lemma_merge_disjoint(a, b);
    lemma_merge_disjoint(b, c);
    assert forall|i: int, j: int|
        #![trigger (a + b)[i], c[j]]
        0 <= i < (a + b).len() && 0 <= j < c.len() implies ((a + b)[i]).name != (c[j]).name by {
        if i < a.len() {
            assert((a + b)[i] == a[i]);
        } else {
            assert((a + b)[i] == b[i - a.len()]);
        }
    }
    assert forall|i: int, j: int|
        #![trigger a[i], (b + c)[j]]
        0 <= i < a.len() && 0 <= j < (b + c).len() implies ((a[i]).name != ((b + c)[
    j]).name) by {
        if j < b.len() {
            assert((b + c)[j] == b[j]);
        } else {
            assert((b + c)[j] == c[j - b.len()]);
        }
    }
    lemma_merge_disjoint(a + b, c);
    lemma_merge_disjoint(a, b + c);
    assert((a + b) + c =~= a + (b + c));
}

/// Merging two fields of one name yields one field as wide as both
/// together, of the two types' combined standard type, with the upper
/// field's segments moved above the lower field's, which keep their places.
pub proof fn lemma_merge_shared_width(
    upper: Seq<FieldModel>,
    lower: Seq<FieldModel>,
    i: int,
)
    requires
        forall|k: int| 0 <= k < upper.len() ==> (#[trigger] upper[k]).wf(),
        forall|k: int| 0 <= k < lower.len() ==> (#[trigger] lower[k]).wf(),
        0 <= i < upper.len(),
        spec_find(lower, upper[i].name) is Some,
        upper[i].bit_width.spec_bit_count() + spec_find(
            lower,
            upper[i].name,
        ).unwrap().bit_width.spec_bit_count() <= 128,
    ensures
        spec_merge(upper, lower)[i] == spec_concat(upper[i], spec_find(
            lower,
            upper[i].name,
        ).unwrap()),
        spec_seg_width_sum(spec_merge(upper, lower)[i].segments) == spec_seg_width_sum(
            upper[i].segments,
        ) + spec_seg_width_sum(spec_find(lower, upper[i].name).unwrap().segments),
        spec_merge(upper, lower)[i].bit_width == Type::spec_for_field(
            (upper[i].bit_width.spec_bit_count() + spec_find(
                lower,
                upper[i].name,
            ).unwrap().bit_width.spec_bit_count()) as u8,
            Precision::Standard,
        ),
        spec_merge(upper, lower)[i].segments.len() == upper[i].segments.len() + spec_find(
            lower,
            upper[i].name,
        ).unwrap().segments.len(),
        forall|j: int|
            0 <= j < upper[i].segments.len() ==> spec_merge(upper, lower)[i].segments[j] == (
            Segment {
                input: (#[trigger] upper[i].segments[j]).input,
                t: upper[i].segments[j].t,
                location: upper[i].segments[j].location,
                offset: (upper[i].segments[j].offset + spec_seg_width_sum(
                    spec_find(lower, upper[i].name).unwrap().segments,
                )) as u8,
            }),
        forall|j: int|
            0 <= j < spec_find(lower, upper[i].name).unwrap().segments.len() ==> spec_merge(
                upper,
                lower,
            )[i].segments[upper[i].segments.len() + j] == (#[trigger] spec_find(
                lower,
                upper[i].name,
            ).unwrap().segments[j]),
{
    let l = spec_find(lower, upper[i].name).unwrap();
    lemma_find_some(lower, upper[i].name);
    let j = choose|j: int|
        0 <= j < lower.len() && (#[trigger] lower[j]) == spec_find(lower, upper[i].name).unwrap()
            && lower[j].name == upper[i].name;
    lemma_concat_wf(upper[i], l);
    let merged = spec_concat(upper[i], l);
    let lw = spec_seg_width_sum(l.segments) as u8;
    assert forall|k: int| 0 <= k < upper[i].segments.len() implies merged.segments[k] == (Segment {
        input: (#[trigger] upper[i].segments[k]).input,
        t: upper[i].segments[k].t,
        location: upper[i].segments[k].location,
        offset: (upper[i].segments[k].offset + spec_seg_width_sum(l.segments)) as u8,
    }) by {
        assert(merged.segments[k] == spec_shift_segments(upper[i].segments, lw)[k]);
    }
}

/// Locations in ascending, separated order.
pub open spec fn spec_locs_ordered(locs: Seq<Location>) -> bool {
    &&& forall|j: int| 0 <= j < locs.len() ==> (#[trigger] locs[j]).wf()
    &&& forall|j: int|
        0 <= j < locs.len() - 1 ==> (#[trigger] locs[j]).mask_offset + locs[j].width < locs[j
            + 1].mask_offset
}

/// The widths before location `j` fit below location `j`'s offset.
proof fn lemma_wsum_le_offset(locs: Seq<Location>, j: int)
    requires
        spec_locs_ordered(locs),
        0 <= j < locs.len(),
    ensures
        spec_width_sum(locs.take(j)) <= locs[j].mask_offset,
    decreases j,
{
    if j == 0 {
        assert(spec_width_sum(locs.take(0)) == 0);
    } else {
        lemma_wsum_le_offset(locs, j - 1);
        lemma_width_sum_take_step(locs, j - 1);
    }
}

/// Prefix width sums grow with the prefix.
proof fn lemma_wsum_mono(locs: Seq<Location>, a: int, b: int)
    requires
        0 <= a <= b <= locs.len(),
    ensures
        spec_width_sum(locs.take(a)) <= spec_width_sum(locs.take(b)),
{
    assert(locs.take(b).take(a) =~= locs.take(a));
    lemma_width_sum_take_le(locs.take(b), a);
}

/// Bit `d` of a segment's value, for a segment packing bits downward.
proof fn lemma_seg_value_bit(seg: Segment, d: u128)
    requires
        seg.location.wf(),
        seg.offset <= seg.location.mask_offset,
        d < 128,
    ensures
        nth_bit(seg.spec_value(), d) == (seg.offset <= d < seg.offset + seg.location.width
            && nth_bit(
            seg.input,
            (seg.location.mask_offset + (d - seg.offset)) as u128,
        )),
{
    let o = seg.location.mask_offset as u128;
    let w = seg.location.width as u128;
    let s = seg.offset as u128;
    let masked = seg.input & seg.location.spec_mask();
    lemma_bit_shr(masked, (o - s) as u128, d);
    if d + (o - s) < 128 {
        let x = (d + (o - s)) as u128;
        lemma_bit_and(seg.input, seg.location.spec_mask(), x);
        lemma_bit_shl(low_mask(w), o, x);
        if x >= o {
            lemma_bit_mask(w, (x - o) as u128);
        }
    } else {
        assert(!(s <= d < s + w));
    }
}

/// The bit of the input that a packed position `d` reads, if `d` lies in
/// the packed range of some location.
pub open spec fn spec_packed_bit(v: u128, locs: Seq<Location>, d: u128) -> bool {
    exists|j: int|
        0 <= j < locs.len() && spec_width_sum(locs.take(j)) <= d < spec_width_sum(
            locs.take(j + 1),
        ) && nth_bit(
            v,
            ((#[trigger] locs[j]).mask_offset + (d - spec_width_sum(locs.take(j)))) as u128,
        )
}

/// Within location `j`'s packed range, the packed bit reads location `j`.
proof fn lemma_packed_bit_at(v: u128, locs: Seq<Location>, j: int, d: u128)
    requires
        spec_locs_ordered(locs),
        0 <= j < locs.len(),
        spec_width_sum(locs.take(j)) <= d < spec_width_sum(locs.take(j + 1)),
    ensures
        spec_packed_bit(v, locs, d) == nth_bit(
            v,
            (locs[j].mask_offset + (d - spec_width_sum(locs.take(j)))) as u128,
        ),
{
    lemma_width_sum_take_step(locs, j);
    if spec_packed_bit(v, locs, d) {
        let j2 = choose|j2: int|
            0 <= j2 < locs.len() && spec_width_sum(locs.take(j2)) <= d < spec_width_sum(
                locs.take(j2 + 1),
            ) && nth_bit(
                v,
                ((#[trigger] locs[j2]).mask_offset + (d - spec_width_sum(locs.take(j2)))) as u128,
            );
        if j2 < j {
            lemma_wsum_mono(locs, j2 + 1, j);
            lemma_width_sum_take_step(locs, j2);
        } else if j2 > j {
            lemma_wsum_mono(locs, j + 1, j2);
            lemma_width_sum_take_step(locs, j2);
        }
        assert(j2 == j);
    }
}

/// Bit `d` of a name's extracted value: set exactly when `d` lies under the
/// name's total width and the input carries the matching template bit.
#[verifier::rlimit(60)]
proof fn lemma_extract_value_bit(
    v: u128,
    input_type: Type,
    precision: Precision,
    name: Name,
    locs: Seq<Location>,
    d: u128,
)
    requires
        spec_locs_ordered(locs),
        spec_width_sum(locs) <= 128,
        d < 128,
    ensures
        nth_bit(
            spec_segments_value(
                spec_extract_model(v, input_type, precision, None, name, locs).segments,
            ),
            d,
        ) == (d < spec_width_sum(locs) && spec_packed_bit(v, locs, d)),
    decreases locs.len(),
{
    let segs = spec_extract_model(v, input_type, precision, None, name, locs).segments;
    if locs.len() == 0 {
        lemma_bit_zero(d);
    } else {
        let front = locs.drop_last();
        assert(spec_locs_ordered(front));
        let front_segs = spec_extract_model(v, input_type, precision, None, name, front).segments;
        assert forall|j: int| 0 <= j < front.len() implies front.take(j) == locs.take(j) by {
            assert(front.take(j) =~= locs.take(j));
        }
        assert(segs.drop_last() =~= front_segs);
        lemma_extract_value_bit(v, input_type, precision, name, front, d);
        let last_j = locs.len() - 1;
        let s_last = spec_width_sum(locs.take(last_j));
        assert(locs.take(last_j) =~= front);
        let last_seg = segs.last();
        lemma_wsum_le_offset(locs, last_j);
        lemma_seg_value_bit(last_seg, d);
        lemma_bit_or(spec_segments_value(front_segs), last_seg.spec_value(), d);
        assert(locs.take(last_j + 1) =~= locs);
        lemma_width_sum_take_step(locs, last_j);
        if d < s_last {
            // The last segment contributes nothing here; the front decides.
            if spec_packed_bit(v, front, d) {
                let j = choose|j: int|
                    0 <= j < front.len() && spec_width_sum(front.take(j)) <= d < spec_width_sum(
                        front.take(j + 1),
                    ) && nth_bit(
                        v,
                        ((#[trigger] front[j]).mask_offset + (d - spec_width_sum(
                            front.take(j),
                        ))) as u128,
                    );
                assert(front.take(j + 1) =~= locs.take(j + 1));
                assert(spec_packed_bit(v, locs, d));
            }
            if spec_packed_bit(v, locs, d) {
                let j = choose|j: int|
                    0 <= j < locs.len() && spec_width_sum(locs.take(j)) <= d < spec_width_sum(
                        locs.take(j + 1),
                    ) && nth_bit(
                        v,
                        ((#[trigger] locs[j]).mask_offset + (d - spec_width_sum(
                            locs.take(j),
                        ))) as u128,
                    );
                if j == last_j {
                    assert(false);
                } else {
                    assert(front.take(j + 1) =~= locs.take(j + 1));
                    assert(front.take(j) =~= locs.take(j));
                    assert(spec_packed_bit(v, front, d));
                }
            }
        } else if d < spec_width_sum(locs) {
            // The last location's packed range.
            lemma_packed_bit_at(v, locs, last_j, d);
        } else {
            // Above every packed range: no segment reaches this bit.
            if spec_packed_bit(v, locs, d) {
                let j = choose|j: int|
                    0 <= j < locs.len() && spec_width_sum(locs.take(j)) <= d < spec_width_sum(
                        locs.take(j + 1),
                    ) && nth_bit(
                        v,
                        ((#[trigger] locs[j]).mask_offset + (d - spec_width_sum(
                            locs.take(j),
                        ))) as u128,
                    );
                lemma_wsum_mono(locs, j + 1, locs.len() as int);
                assert(locs.take(locs.len() as int) =~= locs);
                assert(false);
            }
        }
    }
}

/// Whether one of the first `i` locations holds bit `d` of the placed
/// value, reading the matching packed bit of `var`.
pub open spec fn spec_placed_bit(var: u128, locs: Seq<Location>, i: int, d: u128) -> bool {
    exists|j: int|
        0 <= j < i && j < locs.len() && (#[trigger] locs[j]).mask_offset <= d
            < locs[j].mask_offset + locs[j].width && nth_bit(
            var,
            (spec_width_sum(locs.take(j)) + (d - locs[j].mask_offset)) as u128,
        )
}

/// Bit `d` of one placed slice under truncation.
proof fn lemma_place_bit(var: u128, locs: Seq<Location>, n: u128, j: int, d: u128)
    requires
        spec_locs_ordered(locs),
        0 <= j < locs.len(),
        spec_width_sum(locs) <= n <= 128,
        locs[j].mask_offset + locs[j].width <= n,
        d < 128,
    ensures
        nth_bit(
            spec_place_one(spec_seg_raw(var, locs, j), locs[j], n, OnOverflow::Truncate),
            d,
        ) == (locs[j].mask_offset <= d < locs[j].mask_offset + locs[j].width && nth_bit(
            var,
            (spec_width_sum(locs.take(j)) + (d - locs[j].mask_offset)) as u128,
        )),
{
    let o = locs[j].mask_offset as u128;
    let w = locs[j].width as u128;
    let s = spec_width_sum(locs.take(j)) as u128;
    let seg = spec_seg_raw(var, locs, j);
    let placed = (seg & low_mask(w)) << o;
    lemma_width_sum_take_step(locs, j);
    lemma_wsum_mono(locs, j + 1, locs.len() as int);
    assert(locs.take(locs.len() as int) =~= locs);
    lemma_bit_shl(seg & low_mask(w), o, d);
    if d >= o {
        let y = (d - o) as u128;
        lemma_bit_and(seg, low_mask(w), y);
        lemma_bit_mask(w, y);
        if y < w {
            lemma_bit_shr(var, s, y);
            if j < locs.len() - 1 {
                lemma_bit_and(var >> s, low_mask(w), y);
            }
        }
    }
}

/// Bit `d` of a name's value placed into its first `i` locations.
proof fn lemma_name_value_bit(var: u128, locs: Seq<Location>, n: u128, i: int, d: u128)
    requires
        spec_locs_ordered(locs),
        spec_width_sum(locs) <= n <= 128,
        forall|j: int|
            0 <= j < locs.len() ==> (#[trigger] locs[j]).mask_offset + locs[j].width <= n,
        0 <= i <= locs.len(),
        d < 128,
    ensures
        nth_bit(
            spec_name_value_prefix(var, locs, n, OnOverflow::Truncate, i),
            d,
        ) == spec_placed_bit(var, locs, i, d),
    decreases i,
{
    if i == 0 {
        lemma_bit_zero(d);
    } else {
        lemma_name_value_bit(var, locs, n, i - 1, d);
        lemma_place_bit(var, locs, n, i - 1, d);
        lemma_bit_or(
            spec_name_value_prefix(var, locs, n, OnOverflow::Truncate, i - 1),
            spec_place_one(spec_seg_raw(var, locs, i - 1), locs[i - 1], n, OnOverflow::Truncate),
            d,
        );
        if spec_placed_bit(var, locs, i - 1, d) {
            assert(spec_placed_bit(var, locs, i, d));
        }
        if spec_placed_bit(var, locs, i, d) && !spec_placed_bit(var, locs, i - 1, d) {
            let j = choose|j: int|
                0 <= j < i && j < locs.len() && (#[trigger] locs[j]).mask_offset <= d
                    < locs[j].mask_offset + locs[j].width && nth_bit(
                    var,
                    (spec_width_sum(locs.take(j)) + (d - locs[j].mask_offset)) as u128,
                );
            assert(j == i - 1);
        }
    }
}

/// The values that extraction reads out of `v`, one per template name.
pub open spec fn spec_extracted_values(t: Template, v: u128) -> Seq<u128> {
    Seq::new(
        t.names().len(),
        |i: int|
            spec_segments_value(
                spec_extract_model(
                    v,
                    t.width,
                    t.precision,
                    None,
                    t.names()[i],
                    t.locs_of(i),
                ).segments,
            ),
    )
}

/// Whether one of the first `i` names' placed values holds bit `d`.
pub open spec fn spec_combined_bit(t: Template, values: Seq<u128>, i: int, d: u128) -> bool {
    exists|k: int|
        0 <= k < i && k < t.names().len() && spec_placed_bit(
            values[k],
            #[trigger] t.locs_of(k),
            t.locs_of(k).len() as int,
            d,
        )
}

/// Bit `d` of the first `i` names' combined values.
proof fn lemma_combine_prefix_bit(t: Template, values: Seq<u128>, i: int, d: u128)
    requires
        t.wf(),
        0 <= i <= t.names().len(),
        d < 128,
    ensures
        nth_bit(
            t.spec_combine_prefix(values, OnOverflow::Truncate, i),
            d,
        ) == spec_combined_bit(t, values, i, d),
    decreases i,
{
    if i == 0 {
        lemma_bit_zero(d);
    } else {
        lemma_combine_prefix_bit(t, values, i - 1, d);
        let locs = t.locs_of(i - 1);
        let n = t.width.spec_bit_count() as u128;
        lemma_name_value_bit(values[i - 1], locs, n, locs.len() as int, d);
        lemma_bit_or(
            t.spec_combine_prefix(values, OnOverflow::Truncate, i - 1),
            spec_name_value(values[i - 1], locs, n, OnOverflow::Truncate),
            d,
        );
        if spec_combined_bit(t, values, i - 1, d) {
            assert(spec_combined_bit(t, values, i, d));
        }
        if spec_placed_bit(values[i - 1], locs, locs.len() as int, d) {
            assert(spec_combined_bit(t, values, i, d));
        }
        if spec_combined_bit(t, values, i, d) && !spec_combined_bit(t, values, i - 1, d) {
            let k = choose|k: int|
                0 <= k < i && k < t.names().len() && spec_placed_bit(
                    values[k],
                    #[trigger] t.locs_of(k),
                    t.locs_of(k).len() as int,
                    d,
                );
            assert(k == i - 1);
        }
    }
}

/// A name character in the sequence is among the sequence's names.
proof fn lemma_char_in_names(s: Seq<Character>, i: int)
    requires
        0 <= i < s.len(),
        s[i] is Name,
    ensures
        spec_names(s).contains(s[i]->Name_0),
    decreases s.len(),
{
    if i == s.len() - 1 {
        if !spec_names(s.drop_last()).contains(s[i]->Name_0) {
            assert(spec_names(s).last() == s[i]->Name_0);
        }
    } else {
        lemma_char_in_names(s.drop_last(), i);
        let prefix = spec_names(s.drop_last());
        let k = choose|k: int| 0 <= k < prefix.len() && prefix[k] == s[i]->Name_0;
        assert(spec_names(s)[k] == s[i]->Name_0);
    }
}

/// Round trip: over a template of names alone, with no placeholders and no
/// literal digits, combining the extracted fields restores the input, for
/// every input of the template's width.
/// Common requirements of the round-trip bit lemmas.
spec fn spec_round_trip_pre(t: Template, v: u128) -> bool {
    &&& t.wf()
    &&& !spec_has_placeholders(t.characters@)
    &&& !spec_has_literal(t.characters@)
    &&& fits(v, t.width.spec_bit_count() as u128)
}

/// No combined bit lies at or above the template's width.
proof fn lemma_round_trip_bit_high(t: Template, v: u128, d: u128)
    requires
        spec_round_trip_pre(t, v),
        t.width.spec_bit_count() as u128 <= d < 128,
    ensures
        !spec_combined_bit(t, spec_extracted_values(t, v), t.names().len() as int, d),
{
    let n = t.width.spec_bit_count() as u128;
    let values = spec_extracted_values(t, v);
    let count = t.names().len() as int;
    if spec_combined_bit(t, values, count, d) {
        let k = choose|k: int|
            0 <= k < count && k < t.names().len() && spec_placed_bit(
                values[k],
                #[trigger] t.locs_of(k),
                t.locs_of(k).len() as int,
                d,
            );
        let locs = t.locs_of(k);
        let j = choose|j: int|
            0 <= j < locs.len() && (#[trigger] locs[j]).mask_offset <= d < locs[j].mask_offset
                + locs[j].width && nth_bit(
                values[k],
                (spec_width_sum(locs.take(j)) + (d - locs[j].mask_offset)) as u128,
            );
        assert(false);
    }
}

/// Below the template's width, the bit's character names the field whose
/// extracted value carries the bit back to its place.
#[verifier::rlimit(60)]
proof fn lemma_round_trip_bit_setup(t: Template, v: u128, d: u128, i: int, j: int)
    requires
        spec_round_trip_pre(t, v),
        d < t.width.spec_bit_count() as u128,
        0 <= i < t.names().len(),
        spec_char_at_bit(t.characters@, d as int) == Character::Name(t.names()[i]),
        0 <= j < t.locs_of(i).len(),
        t.locs_of(i)[j].mask_offset <= (d as int),
        (d as int) < t.locs_of(i)[j].mask_offset + t.locs_of(i)[j].width,
    ensures
        nth_bit(
            spec_extracted_values(t, v)[i],
            (spec_width_sum(t.locs_of(i).take(j)) + (d - t.locs_of(i)[j].mask_offset)) as u128,
        ) == nth_bit(v, d),
{
    let locs = t.locs_of(i);
    let o_j = locs[j].mask_offset as u128;
    let s_j = spec_width_sum(locs.take(j));
    let dd = (s_j + (d - o_j)) as u128;
    lemma_width_sum_take_step(locs, j);
    lemma_wsum_mono(locs, j + 1, locs.len() as int);
    assert(locs.take(locs.len() as int) =~= locs);
    lemma_extract_value_bit(v, t.width, t.precision, t.names()[i], locs, dd);
    lemma_packed_bit_at(v, locs, j, dd);
    assert(spec_extracted_values(t, v)[i] == spec_segments_value(
        spec_extract_model(v, t.width, t.precision, None, t.names()[i], locs).segments,
    ));
}

/// Below the template's width, the combined bit is the input's bit.
#[verifier::rlimit(100)]
proof fn lemma_round_trip_bit_low(t: Template, v: u128, d: u128)
    requires
        spec_round_trip_pre(t, v),
        d < t.width.spec_bit_count() as u128,
    ensures
        spec_combined_bit(t, spec_extracted_values(t, v), t.names().len() as int, d) == nth_bit(
            v,
            d,
        ),
{
    let n = t.width.spec_bit_count() as u128;
    let values = spec_extracted_values(t, v);
    let count = t.names().len() as int;
    let chars = t.characters@;
    crate::field::lemma_spec_names_distinct_rec(chars);
    let idx = chars.len() - 1 - d as int;
    let c = spec_char_at_bit(chars, d as int);
    assert(c is Name) by {
        if c is Placeholder {
            assert(spec_has_placeholders(chars));
        } else if c.spec_is_literal() {
            assert(spec_has_literal(chars));
        }
    }
    let nm = c->Name_0;
    lemma_char_in_names(chars, idx);
    let i = choose|i: int| 0 <= i < spec_names(chars).len() && spec_names(chars)[i] == nm;
    let locs = t.locs_of(i);
    assert(spec_covered(locs, d as int));
    let j = choose|j: int|
        0 <= j < locs.len() && ((#[trigger] locs[j]).mask_offset <= d as int) && ((d as int)
            < locs[j].mask_offset + locs[j].width);
    lemma_round_trip_bit_setup(t, v, d, i, j);
    if nth_bit(v, d) {
        assert(spec_placed_bit(values[i], locs, locs.len() as int, d));
        assert(spec_combined_bit(t, values, count, d));
    }
    if spec_combined_bit(t, values, count, d) {
        let k = choose|k: int|
            0 <= k < count && k < t.names().len() && spec_placed_bit(
                values[k],
                #[trigger] t.locs_of(k),
                t.locs_of(k).len() as int,
                d,
            );
        let locs_k = t.locs_of(k);
        let j2 = choose|j2: int|
            0 <= j2 < locs_k.len() && (#[trigger] locs_k[j2]).mask_offset <= d
                < locs_k[j2].mask_offset + locs_k[j2].width && nth_bit(
                values[k],
                (spec_width_sum(locs_k.take(j2)) + (d - locs_k[j2].mask_offset)) as u128,
            );
        assert(spec_covered(locs_k, d as int));
        assert(spec_char_at_bit(chars, d as int) == Character::Name(spec_names(chars)[k]));
        assert(spec_names(chars)[k] == nm);
        assert(k == i);
        if j2 < j {
            lemma_locs_pairwise(locs, j2, j);
            assert(false);
        }
        if j2 > j {
            lemma_locs_pairwise(locs, j, j2);
            assert(false);
        }
        assert(nth_bit(v, d));
    }
}

/// Round trip: over a template of names alone, with no placeholders and no
/// literal digits, combining the extracted fields restores the input, for
/// every input of the template's width.
pub proof fn lemma_round_trip(t: Template, v: u128)
    requires
        t.wf(),
        !spec_has_placeholders(t.characters@),
        !spec_has_literal(t.characters@),
        fits(v, t.width.spec_bit_count() as u128),
    ensures
        t.spec_combined(spec_extracted_values(t, v), OnOverflow::Truncate) == v,
{
    let n = t.width.spec_bit_count() as u128;
    let values = spec_extracted_values(t, v);
    let count = t.names().len() as int;
    let prefix = t.spec_combine_prefix(values, OnOverflow::Truncate, count);
    lemma_no_literal_value_zero(t.characters@);
    lemma_or_zero(prefix);
    assert forall|d: u128| d < 128 implies nth_bit(prefix, d) == nth_bit(v, d) by {
        lemma_combine_prefix_bit(t, values, count, d);
        if d >= n {
            lemma_round_trip_bit_high(t, v, d);
            crate::bits::lemma_fits_bit(v, n, d);
        } else {
            lemma_round_trip_bit_low(t, v, d);
        }
    }
    lemma_bit_ext(prefix, v);
}
} // verus!
