//! Bit-field templates over fixed-width unsigned integers.
//!
//! A template is a short string such as `"aaab bbbb .d.. cccc"` that names
//! which bits of an integer belong to which field.  The crate parses such a
//! template into a sequence of binary-resolution characters, resolves each
//! name's bits into contiguous locations, infers a result type for every
//! field, and evaluates four operations over the layout: extracting named
//! fields from an integer, combining named values into an integer, replacing
//! a subset of an integer's bits, and extracting fields from several inputs
//! and recombining them under an output template.

use vstd::prelude::*;
use vstd::string::StrSliceExecFns;

pub mod base;
pub mod bits;
pub mod character;
pub mod error;
pub mod field;
pub mod laws;
pub mod name;
pub mod segment;
pub mod template;
pub mod location;
pub mod types;

use crate::base::Base;
use crate::bits::fits;
use crate::bits::low_mask;
use crate::bits::mask_bits;
use crate::bits::lemma_mask_fits;
use crate::character::spec_has_placeholders;
use crate::character::spec_names;
use crate::character::spec_parse;
use crate::error::TemplateError;
use crate::field::Field;
use crate::field::FieldModel;
use crate::field::names_distinct;
use crate::field::spec_merge;
use crate::field::spec_merge_ok;
use crate::field::views;
use crate::field::lemma_merge_props;
use crate::field::lemma_spec_names_distinct_rec;
use crate::location::OnOverflow;
use crate::template::Template;
use crate::template::lemma_extract_models_unique;
use crate::template::lemma_extracted_is_model;
use crate::template::lemma_ops_unique;
use crate::template::spec_extract_models;
use crate::template::lemma_template_unique;
use crate::template::spec_is_extracted_field;
use crate::types::Precision;
use crate::types::Type;

verus! {

/// Whether `t` is the resolution of the given template text: its characters
/// are the text's parse, and every name's locations are that name's runs.
pub open spec fn spec_resolves(t: Template, text: Seq<char>, base: Base, precision: Precision) -> bool {
    &&& t.wf()
    &&& Some(t.characters@) == spec_parse(text, base)
    &&& t.precision == precision
}

/// Under standard precision, a minimum-size override must itself be a
/// standard type.
pub open spec fn spec_bad_min(precision: Precision, min_size: Option<Type>) -> bool {
    precision == Precision::Standard && (min_size matches Some(m) && !m.spec_is_standard())
}

/// A character that reads as a literal digit in template text: a decimal
/// digit or an uppercase letter.
pub open spec fn spec_is_literal_digit(c: char) -> bool {
    ('0' <= c <= '9') || ('A' <= c <= 'Z')
}

/// Whether the raw template text holds any literal digit.
pub open spec fn spec_has_literal_digit(text: Seq<char>) -> bool {
    exists|i: int| 0 <= i < text.len() && spec_is_literal_digit(#[trigger] text[i])
}

/// Whether the text parses into a sequence that a whole-template operation
/// accepts: at most 128 characters, and a standard width.
pub open spec fn spec_parse_good(text: Seq<char>, base: Base) -> bool {
    spec_parse(text, base) matches Some(s) && s.len() <= 128 && Type::spec_valid_template_width(
        s.len() as u8,
    )
}

/// The number of distinct names in the parsed template text.
pub open spec fn spec_parsed_names_len(text: Seq<char>, base: Base) -> int {
    match spec_parse(text, base) {
        Some(s) => spec_names(s).len() as int,
        None => 0,
    }
}

/// Whether the parsed template text holds a placeholder.
pub open spec fn spec_parsed_has_placeholders(text: Seq<char>, base: Base) -> bool {
    match spec_parse(text, base) {
        Some(s) => spec_has_placeholders(s),
        None => false,
    }
}

/// The first literal digit of the text, if any.
fn find_literal_digit(text: &str) -> (r: Option<char>)
    ensures
        r is Some <==> spec_has_literal_digit(text@),
        r matches Some(c) ==> exists|i: int|
            0 <= i < text@.len() && #[trigger] text@[i] == c && spec_is_literal_digit(c),
{
    let len = text.unicode_len();
    let mut i: usize = 0;
    while i < len
        invariant
            i <= len,
            len == text@.len(),
            forall|j: int| 0 <= j < i ==> !spec_is_literal_digit(#[trigger] text@[j]),
        decreases len - i,
    {
        let c = text.get_char(i);
        if ('0' <= c && c <= '9') || ('A' <= c && c <= 'Z') {
            return Some(c);
        }
        i = i + 1;
    }
    None
}

/// What extraction guarantees: when it succeeds, what each field holds for
/// every resolution of the template; when it fails, exactly why.
pub open spec fn spec_extract_post(
    r: Result<Vec<Field>, TemplateError>,
    base: Base,
    precision: Precision,
    input: u128,
    template: Seq<char>,
    min_size: Option<Type>,
) -> bool {
    &&& (r is Ok <==> (!spec_bad_min(precision, min_size) && !spec_has_literal_digit(template)
            && spec_parse_good(template, base)))
    &&& (r matches Ok(fields) ==> forall|t: Template|
            spec_resolves(t, template, base, precision) ==> {
                &&& fields@.len() == t.names().len()
                &&& forall|i: int|
                    0 <= i < fields@.len() ==> spec_is_extracted_field(
                        (#[trigger] fields@[i])@,
                        input & low_mask(t.width.spec_bit_count() as u128),
                        t.width,
                        precision,
                        min_size,
                        t.names()[i],
                        t.locs_of(i),
                    ) && fields@[i]@.evaluable()
            })
    &&& (r matches Err(e) ==> match e {
            TemplateError::MinNotStandard => spec_bad_min(precision, min_size),
            TemplateError::LiteralNotAllowed { found } => !spec_bad_min(precision, min_size)
                && spec_is_literal_digit(found) && exists|i: int|
                0 <= i < template.len() && #[trigger] template[i] == found,
            TemplateError::IllegalCharacter { found } => spec_parse(template, base) is None,
            TemplateError::TooWide { bit_count } => spec_parse(template, base) matches Some(s)
                && s.len() > 128 && bit_count == s.len(),
            TemplateError::NonStandardWidth { width } => spec_parse(template, base) matches Some(
                s,
            ) && s.len() <= 128 && width == s.len() && !Type::spec_valid_template_width(width),
            _ => false,
        })
}

/// Extract the template's fields from the input value: parse the template,
/// which must carry no literal digits here, resolve its locations, and build
/// one field per name.  The input is read at the template's width.
pub fn extract(
    base: Base,
    precision: Precision,
    input: u128,
    template: &str,
    min_size: Option<Type>,
) -> (r: Result<Vec<Field>, TemplateError>)
    requires
        min_size matches Some(m) ==> m.wf(),
    ensures
        spec_extract_post(r, base, precision, input, template@, min_size),
{
    if precision == Precision::Standard {
        if let Some(m) = min_size {
            if !m.is_standard() {
                return Err(TemplateError::MinNotStandard);
            }
        }
    }
    if let Some(c) = find_literal_digit(template) {
        return Err(TemplateError::LiteralNotAllowed { found: c });
    }
    let t0 = match Template::from_expr(template, base, precision) {
        Ok(t) => t,
        Err(e) => {
            return Err(e);
        },
    };
    let masked = input & mask_bits(t0.width.bit_count());
    proof {
        lemma_mask_fits(input, t0.width.spec_bit_count() as u128);
    }
    let fields = t0.extract_fields(masked, min_size);
    proof {
        assert forall|t: Template| spec_resolves(t, template@, base, precision) implies {
            &&& fields@.len() == t.names().len()
            &&& forall|i: int|
                0 <= i < fields@.len() ==> spec_is_extracted_field(
                    (#[trigger] fields@[i])@,
                    input & low_mask(t.width.spec_bit_count() as u128),
                    t.width,
                    precision,
                    min_size,
                    t.names()[i],
                    t.locs_of(i),
                ) && fields@[i]@.evaluable()
        } by {
            lemma_same_width(t0, t);
            lemma_template_unique(t0, t);
        }
    }
    Ok(fields)
}

/// Two resolved templates over the same characters have the same width.
proof fn lemma_same_width(t1: Template, t2: Template)
    requires
        t1.wf(),
        t2.wf(),
        t1.characters@ == t2.characters@,
    ensures
        t1.width == t2.width,
{
    let b1 = t1.width->Num_0;
    let b2 = t2.width->Num_0;
    assert(b1.count == b2.count);
    assert(t1.width == Type::Num(b1) && t2.width == Type::Num(b2));
}


/// No template resolves text that fails to parse to a standard width.
proof fn lemma_no_resolution(text: Seq<char>, base: Base, precision: Precision)
    requires
        !spec_parse_good(text, base),
    ensures
        forall|t: Template| !spec_resolves(t, text, base, precision),
{
    assert forall|t: Template| !spec_resolves(t, text, base, precision) by {
        if spec_resolves(t, text, base, precision) {
            assert(t.characters@.len() == t.width.spec_bit_count());
            assert(Type::spec_valid_template_width(t.width.spec_bit_count()));
            assert(t.characters@.len() <= 128);
            assert(spec_parse(text, base) == Some(t.characters@));
        }
    }
}

/// What combining guarantees: the placed result for every resolution of
/// the template when it succeeds, and exactly why it fails otherwise.
pub open spec fn spec_combine_post(
    r: Result<u128, TemplateError>,
    base: Base,
    on_overflow: OnOverflow,
    values: Seq<u128>,
    template: Seq<char>,
) -> bool {
    &&& (r is Ok ==> spec_parse_good(template, base) && !spec_parsed_has_placeholders(
            template,
            base,
        ) && values.len() == spec_parsed_names_len(template, base))
    &&& (forall|t: Template|
            spec_resolves(t, template, base, Precision::Ux) ==> {
                &&& (r is Ok <==> !spec_parsed_has_placeholders(template, base) && values.len()
                    == t.names().len() && t.spec_values_ok(values, on_overflow))
                &&& (r matches Ok(v) ==> v == t.spec_combined(values, on_overflow))
            })
    &&& (r matches Err(e) ==> match e {
            TemplateError::IllegalCharacter { found } => spec_parse(template, base) is None,
            TemplateError::TooWide { bit_count } => spec_parse(template, base) matches Some(s)
                && s.len() > 128 && bit_count == s.len(),
            TemplateError::NonStandardWidth { width } => spec_parse(template, base) matches Some(
                s,
            ) && s.len() <= 128 && width == s.len() && !Type::spec_valid_template_width(width),
            TemplateError::PlaceholderNotAllowed => spec_parse_good(template, base)
                && spec_parsed_has_placeholders(template, base),
            TemplateError::ArityMismatch { expected, actual } => spec_parse_good(template, base)
                && !spec_parsed_has_placeholders(template, base) && expected
                == spec_parsed_names_len(template, base) && actual == values.len() && expected
                != actual,
            TemplateError::Overflow { name, value, mask } => on_overflow is Panic && (forall|
                t: Template,
            |
                spec_resolves(t, template, base, Precision::Ux) ==> t.spec_overflow_error(
                    values,
                    TemplateError::Overflow { name, value, mask },
                )),
            _ => false,
        })
}


/// Assemble combining's guarantee from one resolution's outcome: what holds
/// of the resolution `t0` holds of every resolution.
proof fn lemma_combine_post(
    t0: Template,
    r: Result<u128, TemplateError>,
    base: Base,
    on_overflow: OnOverflow,
    values: Seq<u128>,
    template: Seq<char>,
)
    requires
        spec_resolves(t0, template, base, Precision::Ux),
        !spec_has_placeholders(t0.characters@),
        values.len() <= usize::MAX,
        values.len() != t0.names().len() ==> r == Err::<u128, TemplateError>(
            TemplateError::ArityMismatch {
                expected: t0.names().len() as usize,
                actual: values.len() as usize,
            },
        ),
        values.len() == t0.names().len() ==> {
            &&& (r is Ok <==> t0.spec_values_ok(values, on_overflow))
            &&& (r matches Ok(v) ==> v == t0.spec_combined(values, on_overflow))
            &&& (r matches Err(e) ==> on_overflow is Panic && t0.spec_overflow_error(values, e))
        },
    ensures
        spec_combine_post(r, base, on_overflow, values, template),
{
    crate::character::lemma_names_len_le(t0.characters@);
    assert forall|t: Template| spec_resolves(t, template, base, Precision::Ux) implies {
        &&& (r is Ok <==> !spec_parsed_has_placeholders(template, base) && values.len()
            == t.names().len() && t.spec_values_ok(values, on_overflow))
        &&& (r matches Ok(v) ==> v == t.spec_combined(values, on_overflow))
    } by {
        lemma_same_width(t0, t);
        lemma_ops_unique(t0, t, values, on_overflow, Seq::empty());
    }
    match r {
        Err(e) => match e {
            TemplateError::Overflow { name, value, mask } => {
                assert forall|t: Template|
                    spec_resolves(t, template, base, Precision::Ux) implies t.spec_overflow_error(
                    values,
                    TemplateError::Overflow { name, value, mask },
                ) by {
                    assert(t0.spec_overflow_error(values, e));
                    lemma_same_width(t0, t);
                    lemma_ops_unique(t0, t, values, on_overflow, Seq::empty());
                }
            },
            _ => {},
        },
        _ => {},
    }
}

/// Combine one value per template name into a single integer: each value is
/// placed into its name's locations under the overflow policy, and the
/// template's literal bits are set.  The template must cover every bit, so
/// placeholders are rejected.
#[verifier::rlimit(100)]
#[verifier::spinoff_prover]
pub fn combine(base: Base, on_overflow: OnOverflow, values: &Vec<u128>, template: &str) -> (r:
    Result<u128, TemplateError>)
    requires
        spec_parse(template@, base) matches Some(chars) ==> forall|i: int|
            0 <= i < values@.len() ==> fits(#[trigger] values@[i], chars.len() as u128),
    ensures
        spec_combine_post(r, base, on_overflow, values@, template@),
{
    let t0 = match Template::from_expr(template, base, Precision::Ux) {
        Ok(t) => t,
        Err(e) => {
            proof {
                lemma_no_resolution(template@, base, Precision::Ux);
            }
            return Err(e);
        },
    };
    if t0.has_placeholders() {
        proof {
            assert(spec_parsed_has_placeholders(template@, base));
        }
        return Err(TemplateError::PlaceholderNotAllowed);
    }
    let value_count = values.len();
    let r = t0.combine_with_args(on_overflow, values);
    proof {
        assert(values@.len() == value_count);
        lemma_combine_post(t0, r, base, on_overflow, values@, template@);
    }
    r
}

/// What replacing guarantees: the cleared-and-placed result for every
/// resolution of the template when it succeeds, and exactly why it fails.
pub open spec fn spec_replace_post(
    r: Result<u128, TemplateError>,
    base: Base,
    on_overflow: OnOverflow,
    target: u128,
    values: Seq<u128>,
    template: Seq<char>,
) -> bool {
    &&& (r is Ok ==> spec_parse_good(template, base) && values.len() == spec_parsed_names_len(
            template,
            base,
        ))
    &&& (forall|t: Template|
            spec_resolves(t, template, base, Precision::Ux) ==> {
                &&& (r is Ok <==> values.len() == t.names().len() && t.spec_values_ok(
                    values,
                    on_overflow,
                ))
                &&& (r matches Ok(v) ==> v == t.spec_replaced(target, values, on_overflow))
            })
    &&& (r matches Err(e) ==> match e {
            TemplateError::IllegalCharacter { found } => spec_parse(template, base) is None,
            TemplateError::TooWide { bit_count } => spec_parse(template, base) matches Some(s)
                && s.len() > 128 && bit_count == s.len(),
            TemplateError::NonStandardWidth { width } => spec_parse(template, base) matches Some(
                s,
            ) && s.len() <= 128 && width == s.len() && !Type::spec_valid_template_width(width),
            TemplateError::ArityMismatch { expected, actual } => spec_parse_good(template, base)
                && expected == spec_parsed_names_len(template, base) && actual == values.len()
                && expected != actual,
            TemplateError::Overflow { name, value, mask } => on_overflow is Panic && (forall|
                t: Template,
            |
                spec_resolves(t, template, base, Precision::Ux) ==> t.spec_overflow_error(
                    values,
                    TemplateError::Overflow { name, value, mask },
                )),
            _ => false,
        })
}

/// Replace the template-named bits of a target value: bits under a name or
/// a literal digit are overwritten, placeholder bits keep the target's
/// value.  One value is taken per name, in template order.
pub fn replace(
    base: Base,
    on_overflow: OnOverflow,
    target: u128,
    values: &Vec<u128>,
    template: &str,
) -> (r: Result<u128, TemplateError>)
    requires
        spec_parse(template@, base) matches Some(chars) ==> {
            &&& forall|i: int|
                0 <= i < values@.len() ==> fits(#[trigger] values@[i], chars.len() as u128)
            &&& fits(target, chars.len() as u128)
        },
    ensures
        spec_replace_post(r, base, on_overflow, target, values@, template@),
{
    let t0 = match Template::from_expr(template, base, Precision::Ux) {
        Ok(t) => t,
        Err(e) => {
            proof {
                lemma_no_resolution(template@, base, Precision::Ux);
            }
            return Err(e);
        },
    };
    if values.len() != t0.locations_by_name.len() {
        proof {
            crate::character::lemma_names_len_le(t0.characters@);
        }
        return Err(
            TemplateError::ArityMismatch {
                expected: t0.locations_by_name.len(),
                actual: values.len(),
            },
        );
    }
    let value_count = values.len();
    let r = t0.replace(on_overflow, target, values);
    proof {
        assert(values@.len() == value_count);
        crate::character::lemma_names_len_le(t0.characters@);
        assert forall|t: Template| spec_resolves(t, template@, base, Precision::Ux) implies {
            &&& (r is Ok <==> values@.len() == t.names().len() && t.spec_values_ok(
                values@,
                on_overflow,
            ))
            &&& (r matches Ok(v) ==> v == t.spec_replaced(target, values@, on_overflow))
        } by {
            lemma_same_width(t0, t);
            lemma_ops_unique(t0, t, values@, on_overflow, Seq::empty());
            assert(t0.spec_replaced(target, values@, on_overflow) == t.spec_replaced(
                target,
                values@,
                on_overflow,
            ));
        }
    }
    if let Err(e) = r {
        proof {
            if let TemplateError::Overflow { name, value, mask } = e {
                assert forall|t: Template|
                    spec_resolves(t, template@, base, Precision::Ux) implies t.spec_overflow_error(
                    values@,
                    TemplateError::Overflow { name, value, mask },
                ) by {
                    assert(t0.spec_overflow_error(values@, e));
                    lemma_same_width(t0, t);
                    lemma_ops_unique(t0, t, values@, on_overflow, Seq::empty());
                }
            }
        }
    }
    r
}

/// Whether `ts` resolves the first `n` input templates, one per pair.
pub open spec fn spec_inputs_resolve_upto(
    ts: Seq<Template>,
    inputs: Seq<(u128, &str)>,
    base: Base,
    n: int,
) -> bool {
    &&& ts.len() == n
    &&& n <= inputs.len()
    &&& forall|m: int|
        0 <= m < n ==> spec_resolves(#[trigger] ts[m], inputs[m].1@, base, Precision::Standard)
}

/// Whether `ts` resolves every input template.
pub open spec fn spec_inputs_resolve(ts: Seq<Template>, inputs: Seq<(u128, &str)>, base: Base) -> bool {
    spec_inputs_resolve_upto(ts, inputs, base, inputs.len() as int)
}

/// The merged field models of the first `k` inputs: each input's extracted
/// fields merged onto what came before.
pub open spec fn spec_fold_models(ts: Seq<Template>, inputs: Seq<(u128, &str)>, k: int) -> Seq<
    FieldModel,
>
    decreases k,
{
    if k <= 0 {
        Seq::<FieldModel>::empty()
    } else {
        spec_merge(
            spec_fold_models(ts, inputs, k - 1),
            spec_extract_models(ts[k - 1], inputs[k - 1].0),
        )
    }
}

/// The fold of the first `k` inputs reads only the first `k` templates.
proof fn lemma_fold_push(ts: Seq<Template>, t: Template, inputs: Seq<(u128, &str)>, k: int)
    requires
        k <= ts.len(),
    ensures
        spec_fold_models(ts.push(t), inputs, k) == spec_fold_models(ts, inputs, k),
    decreases k,
{
    if k > 0 {
        lemma_fold_push(ts, t, inputs, k - 1);
        assert(ts.push(t)[k - 1] == ts[k - 1]);
    }
}

/// Any two template sequences resolving the same inputs fold to the same
/// models.
proof fn lemma_fold_models_unique(
    ts1: Seq<Template>,
    ts2: Seq<Template>,
    inputs: Seq<(u128, &str)>,
    base: Base,
    k: int,
)
    requires
        0 <= k <= ts1.len(),
        k <= ts2.len(),
        forall|m: int|
            0 <= m < k ==> spec_resolves(#[trigger] ts1[m], inputs[m].1@, base, Precision::Standard),
        forall|m: int|
            0 <= m < k ==> spec_resolves(#[trigger] ts2[m], inputs[m].1@, base, Precision::Standard),
        k <= inputs.len(),
    ensures
        spec_fold_models(ts1, inputs, k) == spec_fold_models(ts2, inputs, k),
    decreases k,
{
    if k > 0 {
        lemma_fold_models_unique(ts1, ts2, inputs, base, k - 1);
        let a = ts1[k - 1];
        let b = ts2[k - 1];
        assert(a.characters@ == b.characters@);
        lemma_same_width(a, b);
        lemma_extract_models_unique(a, b, inputs[k - 1].0);
    }
}

/// When a split-then-combine succeeds: every input template is clean and
/// parses to a standard width, every merge step stays within 128 bits, the
/// output template parses without placeholders, and it is covered by the
/// merged fields at exactly its own widths.
pub open spec fn spec_split_ok(inputs: Seq<(u128, &str)>, output: Seq<char>, base: Base) -> bool {
    &&& forall|k: int|
        0 <= k < inputs.len() ==> !spec_has_literal_digit((#[trigger] inputs[k]).1@)
            && spec_parse_good(inputs[k].1@, base)
    &&& spec_parse_good(output, base)
    &&& !spec_parsed_has_placeholders(output, base)
    &&& forall|k: int, ts: Seq<Template>|
        0 <= k < inputs.len() && #[trigger] spec_inputs_resolve_upto(ts, inputs, base, k + 1)
            ==> spec_merge_ok(
            spec_fold_models(ts, inputs, k),
            spec_extract_models(ts[k], inputs[k].0),
        )
    &&& forall|ts: Seq<Template>, t_out: Template|
        #[trigger] spec_inputs_resolve(ts, inputs, base) && #[trigger] spec_resolves(
            t_out,
            output,
            base,
            Precision::Standard,
        ) ==> t_out.spec_substitute_ok(spec_fold_models(ts, inputs, inputs.len() as int))
}


/// A merge failure at step `k` is a failure for every resolution of the
/// first `k + 1` inputs.
proof fn lemma_width_error_transfer(
    ts: Seq<Template>,
    t_in: Template,
    inputs: Seq<(u128, &str)>,
    base: Base,
    k: int,
)
    requires
        ts.len() == k,
        0 <= k < inputs.len(),
        forall|m: int|
            0 <= m < k ==> spec_resolves(#[trigger] ts[m], inputs[m].1@, base, Precision::Standard),
        spec_resolves(t_in, inputs[k].1@, base, Precision::Standard),
        !spec_merge_ok(spec_fold_models(ts, inputs, k), spec_extract_models(t_in, inputs[k].0)),
    ensures
        forall|ts2: Seq<Template>|
            #[trigger] spec_inputs_resolve_upto(ts2, inputs, base, k + 1) ==> !spec_merge_ok(
                spec_fold_models(ts2, inputs, k),
                spec_extract_models(ts2[k], inputs[k].0),
            ),
        forall|output: Seq<char>| !#[trigger] spec_split_ok(inputs, output, base),
{
    let tsx = ts.push(t_in);
    lemma_fold_push(ts, t_in, inputs, k);
    assert(spec_inputs_resolve_upto(tsx, inputs, base, k + 1));
    assert forall|ts2: Seq<Template>|
        #[trigger] spec_inputs_resolve_upto(ts2, inputs, base, k + 1) implies !spec_merge_ok(
        spec_fold_models(ts2, inputs, k),
        spec_extract_models(ts2[k], inputs[k].0),
    ) by {
        lemma_fold_models_unique(ts2, tsx, inputs, base, k);
        let a = ts2[k];
        assert(a.characters@ == t_in.characters@);
        lemma_same_width(a, t_in);
        lemma_extract_models_unique(a, t_in, inputs[k].0);
        assert(spec_extract_models(tsx[k], inputs[k].0) == spec_extract_models(
            t_in,
            inputs[k].0,
        ));
    }
    assert forall|output: Seq<char>| !#[trigger] spec_split_ok(inputs, output, base) by {
        if spec_split_ok(inputs, output, base) {
            assert(spec_merge_ok(
                spec_fold_models(tsx, inputs, k),
                spec_extract_models(tsx[k], inputs[k].0),
            ));
        }
    }
}

/// The first pair of fields of one name that two field lists cannot merge
/// within 128 bits, if any; returns the joint type width.
fn check_merge_widths(fields: &Vec<Field>, new_fields: &Vec<Field>) -> (r: Option<usize>)
    ensures
        r is None <==> spec_merge_ok(views(fields@), views(new_fields@)),
        r matches Some(c) ==> c > 128 && exists|i: int, j: int|
            0 <= i < fields@.len() && 0 <= j < new_fields@.len() && (#[trigger] fields@[i]).name
                == (#[trigger] new_fields@[j]).name && fields@[i].bit_width.spec_bit_count()
                + new_fields@[j].bit_width.spec_bit_count() == c,
{
    let n = fields.len();
    let m = new_fields.len();
    let mut i: usize = 0;
    while i < n
        invariant
            i <= n,
            n == fields@.len(),
            m == new_fields@.len(),
            forall|a: int, b: int|
                0 <= a < i && 0 <= b < m && (#[trigger] fields@[a]).name == (
                #[trigger] new_fields@[b]).name ==> fields@[a].bit_width.spec_bit_count()
                    + new_fields@[b].bit_width.spec_bit_count() <= 128,
        decreases n - i,
    {
        let mut j: usize = 0;
        while j < m
            invariant
                i < n,
                j <= m,
                n == fields@.len(),
                m == new_fields@.len(),
                forall|b: int|
                    0 <= b < j && (#[trigger] new_fields@[b]).name == fields@[i as int].name
                        ==> fields@[i as int].bit_width.spec_bit_count()
                        + new_fields@[b].bit_width.spec_bit_count() <= 128,
            decreases m - j,
        {
            if fields[i].name == new_fields[j].name {
                let sum = fields[i].bit_width.bit_count() as usize
                    + new_fields[j].bit_width.bit_count() as usize;
                if sum > 128 {
                    proof {
                        assert(views(fields@)[i as int].name == views(new_fields@)[
                            j as int].name);
                        assert(views(fields@)[i as int].bit_width.spec_bit_count() + views(
                            new_fields@,
                        )[j as int].bit_width.spec_bit_count() > 128);
                    }
                    return Some(sum);
                }
            }
            j = j + 1;
        }
        i = i + 1;
    }
    None
}

/// What split-then-combine guarantees: the substituted result over the
/// merged fields of every resolution when it succeeds, and why it fails.
pub open spec fn spec_split_post(
    r: Result<u128, TemplateError>,
    base: Base,
    inputs: Seq<(u128, &str)>,
    output: Seq<char>,
) -> bool {
    &&& (r is Ok <==> spec_split_ok(inputs, output, base))
    &&& (r matches Ok(v) ==> forall|ts: Seq<Template>, t_out: Template|
            #[trigger] spec_inputs_resolve(ts, inputs, base) && #[trigger] spec_resolves(
                t_out,
                output,
                base,
                Precision::Standard,
            ) ==> v == t_out.spec_substituted(
                spec_fold_models(ts, inputs, inputs.len() as int),
            ))
    &&& (r matches Err(e) ==> match e {
            TemplateError::LiteralNotAllowed { found } => spec_is_literal_digit(found) && exists|
                k: int,
            |
                0 <= k < inputs.len() && spec_has_literal_digit((#[trigger] inputs[k]).1@),
            TemplateError::IllegalCharacter { found } => (exists|k: int|
                0 <= k < inputs.len() && spec_parse((#[trigger] inputs[k]).1@, base) is None)
                || spec_parse(output, base) is None,
            TemplateError::TooWide { bit_count } => (exists|k: int|
                0 <= k < inputs.len() && (spec_parse((#[trigger] inputs[k]).1@, base) matches
                Some(s) && s.len() > 128)) || (spec_parse(output, base) matches Some(s)
                && s.len() > 128),
            TemplateError::NonStandardWidth { width } => (exists|k: int|
                0 <= k < inputs.len() && (spec_parse((#[trigger] inputs[k]).1@, base) matches
                Some(s) && s.len() <= 128 && !Type::spec_valid_template_width(s.len() as u8)))
                || (spec_parse(output, base) matches Some(s) && s.len() <= 128
                && !Type::spec_valid_template_width(s.len() as u8)),
            TemplateError::PlaceholderNotAllowed => spec_parse_good(output, base)
                && spec_parsed_has_placeholders(output, base),
            TemplateError::InvalidBitCount { count } => count > 128 && exists|k: int|
                #![trigger inputs[k]]
                0 <= k < inputs.len() && (forall|ts: Seq<Template>|
                    #[trigger] spec_inputs_resolve_upto(ts, inputs, base, k + 1)
                        ==> !spec_merge_ok(
                        spec_fold_models(ts, inputs, k),
                        spec_extract_models(ts[k], inputs[k].0),
                    )),
            TemplateError::MissingField { name } => forall|ts: Seq<Template>, t_out: Template|
                #[trigger] spec_inputs_resolve(ts, inputs, base) && #[trigger] spec_resolves(
                    t_out,
                    output,
                    base,
                    Precision::Standard,
                ) ==> !t_out.spec_substitute_ok(
                    spec_fold_models(ts, inputs, inputs.len() as int),
                ),
            TemplateError::WidthMismatch { name, field_width, template_width } => forall|
                ts: Seq<Template>,
                t_out: Template,
            |
                #[trigger] spec_inputs_resolve(ts, inputs, base) && #[trigger] spec_resolves(
                    t_out,
                    output,
                    base,
                    Precision::Standard,
                ) ==> !t_out.spec_substitute_ok(
                    spec_fold_models(ts, inputs, inputs.len() as int),
                ),
            _ => false,
        })
}

/// Extract fields from each input under its own template, merge fields of
/// one name across inputs, and substitute the merged fields into the output
/// template.  A field's width must match between the input templates and
/// the output template; a merged field wider than 128 bits is refused.
#[verifier::rlimit(100)]
pub fn split_then_combine(base: Base, inputs: &Vec<(u128, &str)>, output_template: &str) -> (r:
    Result<u128, TemplateError>)
    ensures
        spec_split_post(r, base, inputs@, output_template@),
{
    let input_count = inputs.len();
    let mut fields: Vec<Field> = Vec::new();
    let ghost mut ts: Seq<Template> = Seq::empty();
    let mut k: usize = 0;
    while k < input_count
        invariant
            k <= input_count,
            input_count == inputs@.len(),
            ts.len() == k,
            forall|m: int|
                0 <= m < k ==> spec_resolves(
                    #[trigger] ts[m],
                    inputs@[m].1@,
                    base,
                    Precision::Standard,
                ),
            views(fields@) == spec_fold_models(ts, inputs@, k as int),
            forall|i: int| 0 <= i < fields@.len() ==> (#[trigger] fields@[i])@.wf(),
            names_distinct(views(fields@)),
            forall|m: int|
                0 <= m < k ==> !spec_has_literal_digit((#[trigger] inputs@[m]).1@)
                    && spec_parse_good(inputs@[m].1@, base),
            forall|m: int|
                0 <= m < k ==> spec_merge_ok(
                    spec_fold_models(ts, inputs@, m),
                    #[trigger] spec_extract_models(ts[m], inputs@[m].0),
                ),
        decreases input_count - k,
    {
        let pair = &inputs[k];
        if let Some(c) = find_literal_digit(pair.1) {
            return Err(TemplateError::LiteralNotAllowed { found: c });
        }
        let t_in = match Template::from_expr(pair.1, base, Precision::Standard) {
            Ok(t) => t,
            Err(e) => {
                return Err(e);
            },
        };
        let masked = pair.0 & mask_bits(t_in.width.bit_count());
        proof {
            lemma_mask_fits(inputs@[k as int].0, t_in.width.spec_bit_count() as u128);
        }
        let new_fields = t_in.extract_fields(masked, None);
        proof {
            assert forall|i: int| 0 <= i < new_fields@.len() implies #[trigger] views(
                new_fields@,
            )[i] == spec_extract_models(t_in, inputs@[k as int].0)[i] by {
                lemma_extracted_is_model(
                    new_fields@[i]@,
                    masked,
                    t_in.width,
                    Precision::Standard,
                    None,
                    t_in.names()[i],
                    t_in.locs_of(i),
                );
            }
            assert(views(new_fields@) =~= spec_extract_models(t_in, inputs@[k as int].0));
            lemma_spec_names_distinct_rec(t_in.characters@);
        }
        if let Some(count) = check_merge_widths(&fields, &new_fields) {
            proof {
                lemma_width_error_transfer(ts, t_in, inputs@, base, k as int);
            }
            return Err(TemplateError::InvalidBitCount { count });
        }
        proof {
            assert forall|i: int, j: int|
                0 <= i < fields@.len() && 0 <= j < new_fields@.len() && (
                #[trigger] fields@[i]).name == (#[trigger] new_fields@[j]).name implies fields@[
                i].bit_width.spec_bit_count() + new_fields@[j].bit_width.spec_bit_count()
                <= 128 by {
                assert(views(fields@)[i] == fields@[i]@);
                assert(views(new_fields@)[j] == new_fields@[j]@);
            }
        }
        let merged = Field::merge(&fields, &new_fields);
        proof {
            lemma_merge_props(views(fields@), views(new_fields@));
        }
        fields = merged;
        proof {
            assert forall|i: int| 0 <= i < fields@.len() implies (#[trigger] fields@[i])@.wf() by {
                assert(views(fields@)[i] == fields@[i]@);
            }
            let old_ts = ts;
            ts = ts.push(t_in);
            lemma_fold_push(old_ts, t_in, inputs@, k as int);
            assert forall|m: int|
                0 <= m < k + 1 implies spec_merge_ok(
                spec_fold_models(ts, inputs@, m),
                #[trigger] spec_extract_models(ts[m], inputs@[m].0),
            ) by {
                lemma_fold_push(old_ts, t_in, inputs@, m);
                if m < k {
                    assert(ts[m] == old_ts[m]);
                }
            }
        }
        k = k + 1;
    }
    let t_out0 = match Template::from_expr(output_template, base, Precision::Standard) {
        Ok(t) => t,
        Err(e) => {
            return Err(e);
        },
    };
    if t_out0.has_placeholders() {
        proof {
            assert(spec_parsed_has_placeholders(output_template@, base));
        }
        return Err(TemplateError::PlaceholderNotAllowed);
    }
    let r = t_out0.substitute_fields(fields);
    proof {
        let fold0 = spec_fold_models(ts, inputs@, inputs@.len() as int);
        assert forall|ts2: Seq<Template>, t_out: Template|
            #[trigger] spec_inputs_resolve(ts2, inputs@, base) && #[trigger] spec_resolves(
                t_out,
                output_template@,
                base,
                Precision::Standard,
            ) implies {
            &&& (r matches Ok(v) ==> v == t_out.spec_substituted(
                spec_fold_models(ts2, inputs@, inputs@.len() as int),
            ))
            &&& (t_out.spec_substitute_ok(spec_fold_models(ts2, inputs@, inputs@.len() as int))
                == t_out0.spec_substitute_ok(fold0))
        } by {
            lemma_fold_models_unique(ts2, ts, inputs@, base, inputs@.len() as int);
            lemma_same_width(t_out0, t_out);
            lemma_ops_unique(t_out0, t_out, Seq::empty(), OnOverflow::Corrupt, fold0);
        }
        if r is Ok {
            assert forall|k2: int, ts2: Seq<Template>|
                0 <= k2 < inputs@.len() && #[trigger] spec_inputs_resolve_upto(
                    ts2,
                    inputs@,
                    base,
                    k2 + 1,
                ) implies spec_merge_ok(
                spec_fold_models(ts2, inputs@, k2),
                spec_extract_models(ts2[k2], inputs@[k2].0),
            ) by {
                lemma_fold_models_unique(ts2, ts, inputs@, base, k2);
                let a = ts2[k2];
                assert(a.characters@ == ts[k2].characters@);
                lemma_same_width(a, ts[k2]);
                lemma_extract_models_unique(a, ts[k2], inputs@[k2].0);
            }
        }
        if spec_split_ok(inputs@, output_template@, base) {
            assert(spec_inputs_resolve(ts, inputs@, base));
            assert(spec_resolves(t_out0, output_template@, base, Precision::Standard));
            assert(t_out0.spec_substitute_ok(
                spec_fold_models(ts, inputs@, inputs@.len() as int),
            ));
            assert(t_out0.spec_substitute_ok(views(fields@)));
        }
    }
    r
}

/// Extract bit fields from an integer by matching against a binary
/// template, one field per distinct name letter.
pub fn splitbits(input: u128, template: &str, min_size: Option<Type>) -> (r: Result<
    Vec<Field>,
    TemplateError,
>)
    requires
        min_size matches Some(m) ==> m.wf(),
    ensures
        spec_extract_post(r, Base::Binary, Precision::Standard, input, template@, min_size),
{
    extract(Base::Binary, Precision::Standard, input, template, min_size)
}

/// Same as [`splitbits`], except that the widths of the extracted fields
/// are precise to the bit.
pub fn splitbits_ux(input: u128, template: &str, min_size: Option<Type>) -> (r: Result<
    Vec<Field>,
    TemplateError,
>)
    requires
        min_size matches Some(m) ==> m.wf(),
    ensures
        spec_extract_post(r, Base::Binary, Precision::Ux, input, template@, min_size),
{
    extract(Base::Binary, Precision::Ux, input, template, min_size)
}

/// Same as [`splitbits`], except that the template characters represent
/// hexadecimal digits.
pub fn splithex(input: u128, template: &str, min_size: Option<Type>) -> (r: Result<
    Vec<Field>,
    TemplateError,
>)
    requires
        min_size matches Some(m) ==> m.wf(),
    ensures
        spec_extract_post(r, Base::Hexadecimal, Precision::Standard, input, template@, min_size),
{
    extract(Base::Hexadecimal, Precision::Standard, input, template, min_size)
}

/// Same as [`splithex`], except that the widths of the extracted fields are
/// precise to the bit.
pub fn splithex_ux(input: u128, template: &str, min_size: Option<Type>) -> (r: Result<
    Vec<Field>,
    TemplateError,
>)
    requires
        min_size matches Some(m) ==> m.wf(),
    ensures
        spec_extract_post(r, Base::Hexadecimal, Precision::Ux, input, template@, min_size),
{
    extract(Base::Hexadecimal, Precision::Ux, input, template, min_size)
}

/// Combine the values into a single integer as a binary template lays them
/// out, one value per name in template order.
pub fn combinebits(on_overflow: OnOverflow, values: &Vec<u128>, template: &str) -> (r: Result<
    u128,
    TemplateError,
>)
    requires
        spec_parse(template@, Base::Binary) matches Some(chars) ==> forall|i: int|
            0 <= i < values@.len() ==> fits(#[trigger] values@[i], chars.len() as u128),
    ensures
        spec_combine_post(r, Base::Binary, on_overflow, values@, template@),
{
    combine(Base::Binary, on_overflow, values, template)
}

/// Same as [`combinebits`], except the template uses hexadecimal digits.
pub fn combinehex(on_overflow: OnOverflow, values: &Vec<u128>, template: &str) -> (r: Result<
    u128,
    TemplateError,
>)
    requires
        spec_parse(template@, Base::Hexadecimal) matches Some(chars) ==> forall|i: int|
            0 <= i < values@.len() ==> fits(#[trigger] values@[i], chars.len() as u128),
    ensures
        spec_combine_post(r, Base::Hexadecimal, on_overflow, values@, template@),
{
    combine(Base::Hexadecimal, on_overflow, values, template)
}

/// Replace the bits a binary template names within a target value, one
/// value per name in template order.
pub fn replacebits(
    on_overflow: OnOverflow,
    target: u128,
    values: &Vec<u128>,
    template: &str,
) -> (r: Result<u128, TemplateError>)
    requires
        spec_parse(template@, Base::Binary) matches Some(chars) ==> {
            &&& forall|i: int|
                0 <= i < values@.len() ==> fits(#[trigger] values@[i], chars.len() as u128)
            &&& fits(target, chars.len() as u128)
        },
    ensures
        spec_replace_post(r, Base::Binary, on_overflow, target, values@, template@),
{
    replace(Base::Binary, on_overflow, target, values, template)
}

/// Same as [`replacebits`], except the template uses hexadecimal digits.
pub fn replacehex(
    on_overflow: OnOverflow,
    target: u128,
    values: &Vec<u128>,
    template: &str,
) -> (r: Result<u128, TemplateError>)
    requires
        spec_parse(template@, Base::Hexadecimal) matches Some(chars) ==> {
            &&& forall|i: int|
                0 <= i < values@.len() ==> fits(#[trigger] values@[i], chars.len() as u128)
            &&& fits(target, chars.len() as u128)
        },
    ensures
        spec_replace_post(r, Base::Hexadecimal, on_overflow, target, values@, template@),
{
    replace(Base::Hexadecimal, on_overflow, target, values, template)
}

/// Extract bit fields from each input under its binary template, then
/// combine them into an integer matching the output template.
pub fn splitbits_then_combine(inputs: &Vec<(u128, &str)>, output_template: &str) -> (r: Result<
    u128,
    TemplateError,
>)
    ensures
        spec_split_post(r, Base::Binary, inputs@, output_template@),
{
    split_then_combine(Base::Binary, inputs, output_template)
}

/// Same as [`splitbits_then_combine`], except with hexadecimal digits in
/// the templates.
pub fn splithex_then_combine(inputs: &Vec<(u128, &str)>, output_template: &str) -> (r: Result<
    u128,
    TemplateError,
>)
    ensures
        spec_split_post(r, Base::Hexadecimal, inputs@, output_template@),
{
    split_then_combine(Base::Hexadecimal, inputs, output_template)
}

} // verus!
