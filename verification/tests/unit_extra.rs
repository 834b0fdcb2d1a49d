use splitbits::base::Base;
use splitbits::character::Character;
use splitbits::character::Characters;
use splitbits::combinebits;
use splitbits::error::TemplateError;
use splitbits::field::Field;
use splitbits::field::FieldValue;
use splitbits::location::Location;
use splitbits::location::OnOverflow;
use splitbits::name::Name;
use splitbits::replacebits;
use splitbits::splitbits;
use splitbits::splitbits_then_combine;
use splitbits::segment::Segment;
use splitbits::template::Template;
use splitbits::types::BitCount;
use splitbits::types::Precision;
use splitbits::types::Type;

#[test]
fn test_error_illegal_character() {
    let r = splitbits(0, "aaaa aaa$", None);
    assert_eq!(r.unwrap_err(), TemplateError::IllegalCharacter { found: '$' });
}

#[test]
fn test_error_uppercase_under_binary() {
    let r = splitbits(0, "aaaa aaaA", None);
    assert_eq!(r.unwrap_err(), TemplateError::LiteralNotAllowed { found: 'A' });
    let r = combinebits(OnOverflow::Truncate, &vec![0, 0], "aaaa aaaZ");
    assert_eq!(r.unwrap_err(), TemplateError::IllegalCharacter { found: 'Z' });
}

#[test]
fn test_error_too_wide() {
    let mut text = String::new();
    for _ in 0..129 {
        text.push('a');
    }
    let r = splitbits(0, &text, None);
    assert_eq!(r.unwrap_err(), TemplateError::TooWide { bit_count: 129 });
}

#[test]
fn test_error_non_standard_width() {
    let r = splitbits(0, "aaa", None);
    assert_eq!(r.unwrap_err(), TemplateError::NonStandardWidth { width: 3 });
}

#[test]
fn test_error_literal_not_allowed() {
    let r = splitbits(0, "aaaa aa11", None);
    assert_eq!(r.unwrap_err(), TemplateError::LiteralNotAllowed { found: '1' });
}

#[test]
fn test_error_min_not_standard() {
    let min = Some(Type::Num(BitCount { count: 3 }));
    let r = splitbits(0, "aaaaaaaa", min);
    assert_eq!(r.unwrap_err(), TemplateError::MinNotStandard);
}

#[test]
fn test_error_placeholder_in_combine() {
    let r = combinebits(OnOverflow::Truncate, &vec![0], "aaaa aa..");
    assert_eq!(r.unwrap_err(), TemplateError::PlaceholderNotAllowed);
}

#[test]
fn test_error_arity_mismatch() {
    let r = combinebits(OnOverflow::Truncate, &vec![1, 2], "aaaa aaaa");
    assert_eq!(r.unwrap_err(), TemplateError::ArityMismatch { expected: 1, actual: 2 });
}

#[test]
fn test_error_overflow_details() {
    let r = combinebits(OnOverflow::Panic, &vec![0b1010_0101], "0aaa aaaa");
    match r.unwrap_err() {
        TemplateError::Overflow { name, value, mask } => {
            assert_eq!(name.to_char(), 'a');
            assert_eq!(value, 165);
            assert_eq!(mask, 127);
        },
        _ => panic!("a panic-policy overflow was expected"),
    }
}

#[test]
fn test_error_replace_overflow_details() {
    let r = replacebits(
        OnOverflow::Panic,
        0b0001_1010_1100_1111,
        &vec![0b110, 0b00001, 0, 0b0101],
        ".aab bbbb .d.. cccc",
    );
    match r.unwrap_err() {
        TemplateError::Overflow { name, value, mask } => {
            assert_eq!(name.to_char(), 'a');
            assert_eq!(value, 0b110);
            assert_eq!(mask, 0b11);
        },
        _ => panic!("a panic-policy overflow was expected"),
    }
}

#[test]
fn test_error_width_mismatch() {
    let r = splitbits_then_combine(&vec![(0b1111_0000, "aaaa ....")], "aaab bbb0");
    match r.unwrap_err() {
        TemplateError::WidthMismatch { name, field_width, template_width } => {
            assert_eq!(name.to_char(), 'a');
            assert_eq!(field_width, 4);
            assert_eq!(template_width, 3);
        },
        _ => panic!("a width mismatch was expected"),
    }
}

#[test]
fn test_error_missing_field() {
    let r = splitbits_then_combine(&vec![(0b1111_0000, "aaaa ....")], "aaaa bbbb");
    match r.unwrap_err() {
        TemplateError::MissingField { name } => {
            assert_eq!(name.to_char(), 'b');
        },
        _ => panic!("a missing field was expected"),
    }
}

#[test]
fn test_error_merged_field_too_wide() {
    let mut text = String::new();
    for _ in 0..128 {
        text.push('a');
    }
    let r = splitbits_then_combine(&vec![(1, &text[..]), (2, &text[..])], &text[..]);
    assert_eq!(r.unwrap_err(), TemplateError::InvalidBitCount { count: 256 });
}

#[test]
fn test_error_placeholder_in_output_template() {
    let r = splitbits_then_combine(&vec![(0b1111_0000, "aaaa ....")], "aaaa ....");
    assert_eq!(r.unwrap_err(), TemplateError::PlaceholderNotAllowed);
}

#[test]
fn test_overflow_parse() {
    assert_eq!(OnOverflow::parse("truncate"), Ok(OnOverflow::Truncate));
    assert_eq!(OnOverflow::parse("panic"), Ok(OnOverflow::Panic));
    assert_eq!(OnOverflow::parse("corrupt"), Ok(OnOverflow::Corrupt));
    assert_eq!(OnOverflow::parse("saturate"), Ok(OnOverflow::Saturate));
    assert_eq!(OnOverflow::parse("sideways"), Err(TemplateError::UnknownOverflowOption));
}

#[test]
fn test_type_inference_table() {
    assert_eq!(Type::for_field(1, Precision::Standard), Type::Bool);
    assert_eq!(Type::for_field(2, Precision::Standard), Type::Num(BitCount { count: 8 }));
    assert_eq!(Type::for_field(8, Precision::Standard), Type::Num(BitCount { count: 8 }));
    assert_eq!(Type::for_field(9, Precision::Standard), Type::Num(BitCount { count: 16 }));
    assert_eq!(Type::for_field(17, Precision::Standard), Type::Num(BitCount { count: 32 }));
    assert_eq!(Type::for_field(33, Precision::Standard), Type::Num(BitCount { count: 64 }));
    assert_eq!(Type::for_field(65, Precision::Standard), Type::Num(BitCount { count: 128 }));
    assert_eq!(Type::for_field(1, Precision::Ux), Type::Bool);
    assert_eq!(Type::for_field(5, Precision::Ux), Type::Num(BitCount { count: 5 }));
    assert_eq!(Type::for_field(127, Precision::Ux), Type::Num(BitCount { count: 127 }));
}

#[test]
fn test_template_widths() {
    assert!(Type::for_template(8).is_ok());
    assert!(Type::for_template(16).is_ok());
    assert!(Type::for_template(32).is_ok());
    assert!(Type::for_template(64).is_ok());
    assert!(Type::for_template(128).is_ok());
    assert_eq!(Type::for_template(12), Err(TemplateError::NonStandardWidth { width: 12 }));
}

#[test]
fn test_bit_counts() {
    assert_eq!(BitCount::new(0), Err(TemplateError::InvalidBitCount { count: 0 }));
    assert!(BitCount::new(1).is_ok());
    assert!(BitCount::new(128).is_ok());
    assert_eq!(BitCount::new(129), Err(TemplateError::InvalidBitCount { count: 129 }));
}

#[test]
fn test_type_concat() {
    let u8t = Type::Num(BitCount { count: 8 });
    assert_eq!(u8t.concat(u8t), Type::Num(BitCount { count: 16 }));
    assert_eq!(Type::Bool.concat(Type::Bool), Type::Num(BitCount { count: 8 }));
    assert!(Type::Bool.is_standard());
    assert!(u8t.is_standard());
    assert!(!Type::Num(BitCount { count: 7 }).is_standard());
}

#[test]
fn test_location_masks() {
    let location = Location { width: 3, mask_offset: 4 };
    assert_eq!(location.to_unshifted_mask(), 0b111);
    assert_eq!(location.to_mask(), 0b111_0000);
    let full = Location { width: 128, mask_offset: 0 };
    assert_eq!(full.to_mask(), u128::MAX);
    assert_eq!(location.width(), 3);
    assert_eq!(location.mask_offset(), 4);
}

#[test]
fn test_character_classification() {
    assert_eq!(Character::from_char('.'), Ok(Character::Placeholder));
    assert_eq!(Character::from_char('0'), Ok(Character::Zero));
    assert_eq!(Character::from_char('1'), Ok(Character::One));
    assert!(Character::from_char('q').is_ok());
    assert_eq!(
        Character::from_char('Q'),
        Err(TemplateError::IllegalCharacter { found: 'Q' }),
    );
    assert!(Character::Zero.is_literal());
    assert!(Character::One.is_literal());
    assert!(!Character::Placeholder.is_literal());
    assert_eq!(Character::Placeholder.to_char(), '.');
    assert_eq!(Character::Zero.to_char(), '0');
    assert_eq!(Character::One.to_char(), '1');
    let name = Name::new('x').unwrap();
    assert_eq!(Character::Name(name).to_name(), Some(name));
    assert_eq!(Character::Zero.to_name(), None);
    assert_eq!(Character::Name(name).to_char(), 'x');
    assert!(Name::new('A').is_err());
    assert!(Name::new('1').is_err());
}

#[test]
fn test_character_sequence_queries() {
    let cs = Characters::from_str("a01.", Base::Binary).unwrap();
    assert_eq!(cs.width(), 4);
    assert_eq!(cs.literal_mask(), 0b0110);
    assert_eq!(cs.extract_literal(), Some(0b0010));
    assert!(cs.has_placeholders());
    let names = cs.to_names();
    assert_eq!(names.len(), 1);
    assert_eq!(names[0].to_char(), 'a');

    let plain = Characters::from_str("abba", Base::Binary).unwrap();
    assert_eq!(plain.extract_literal(), None);
    assert!(!plain.has_placeholders());
}

#[test]
fn test_base_digit_widths() {
    assert_eq!(Base::Binary.bits_per_digit(), 1);
    assert_eq!(Base::Hexadecimal.bits_per_digit(), 4);
    let binary = Characters::from_str(" a aa   b bccc  ", Base::Binary).unwrap();
    assert_eq!(binary.width(), 8);
    let hex = Characters::from_str("aF", Base::Hexadecimal).unwrap();
    assert_eq!(hex.width(), 8);
}

#[test]
fn test_hex_digit_expansion() {
    let cs = Characters::from_str("A5", Base::Hexadecimal).unwrap();
    assert_eq!(cs.extract_literal(), Some(0xA5));
    assert_eq!(cs.literal_mask(), 0xFF);
}

#[test]
fn test_round_trip_all_bytes() {
    let mut v: u128 = 0;
    while v < 256 {
        let fields = splitbits(v, "aaabbccc", None).unwrap();
        let mut values: Vec<u128> = Vec::new();
        for f in &fields {
            values.push(f.to_value().to_u128());
        }
        let back = combinebits(OnOverflow::Truncate, &values, "aaabbccc").unwrap();
        assert_eq!(back, v);
        v = v + 1;
    }
}

#[test]
fn test_merge_shared_name_widths() {
    let upper = splitbits(0b1111_0000, "aaaa ....", None).unwrap();
    let lower = splitbits(0b0000_1010, ".... aaa.", None).unwrap();
    let merged = Field::merge(&upper, &lower);
    assert_eq!(merged.len(), 1);
    assert_eq!(merged[0].width(), 7);
    assert_eq!(merged[0].name().to_char(), 'a');
    // The upper field's bits stand above the lower field's.
    assert_eq!(merged[0].to_value(), FieldValue::Num(0b1111_101));
}

#[test]
fn test_merge_disjoint_names_concatenate() {
    let upper = splitbits(0b1111_0000, "aaaa ....", None).unwrap();
    let lower = splitbits(0b0000_1010, ".... bbbb", None).unwrap();
    let merged = Field::merge(&upper, &lower);
    assert_eq!(merged.len(), 2);
    assert_eq!(merged[0].name().to_char(), 'a');
    assert_eq!(merged[1].name().to_char(), 'b');
    assert_eq!(merged[0].to_value(), FieldValue::Num(0b1111));
    assert_eq!(merged[1].to_value(), FieldValue::Num(0b1010));
}

#[test]
fn test_field_value_readings() {
    assert_eq!(FieldValue::Bool(true).to_u128(), 1);
    assert_eq!(FieldValue::Bool(false).to_u128(), 0);
    assert_eq!(FieldValue::Num(0xAB).to_u128(), 0xAB);
}

#[test]
fn test_template_methods() {
    let t = Template::from_expr("aaab bbb1", Base::Binary, Precision::Ux).unwrap();
    assert!(!t.has_placeholders());
    assert_eq!(t.width, Type::Num(BitCount { count: 8 }));
    let combined = t.combine_with_args(OnOverflow::Truncate, &vec![0b101, 0b0110]).unwrap();
    assert_eq!(combined, 0b1010_1101);
    let same = t.combine_with_context(OnOverflow::Truncate, &vec![0b101, 0b0110]).unwrap();
    assert_eq!(same, combined);
    let replaced = t.replace(OnOverflow::Truncate, 0b0000_0000, &vec![0b101, 0b0110]).unwrap();
    assert_eq!(replaced, 0b1010_1101);
    let fields = t.extract_fields(0b1010_1101, None);
    assert_eq!(fields.len(), 2);
    assert_eq!(fields[0].to_value(), FieldValue::Num(0b101));
    assert_eq!(fields[1].to_value(), FieldValue::Num(0b0110));
    let substituted = t.substitute_fields(fields).unwrap();
    assert_eq!(substituted, 0b1010_1101);

    let dotted = Template::from_expr("aa.. ..bb", Base::Binary, Precision::Ux).unwrap();
    assert!(dotted.has_placeholders());
}

#[test]
fn test_segment_methods() {
    let location = Location { width: 3, mask_offset: 2 };
    let mut segment = Segment::new(0b101_1100, Type::Num(BitCount { count: 8 }), location, 0);
    assert_eq!(segment.width(), 3);
    assert_eq!(segment.to_value(), 0b111);
    let shifted = segment.set_output_offset(2);
    assert_eq!(shifted.offset, 2);
    assert_eq!(shifted.to_value(), 0b11100);
    let widened = segment.widen(Type::Num(BitCount { count: 16 }));
    assert_eq!(widened.t, Type::Num(BitCount { count: 16 }));
    assert_eq!(widened.location, location);
}

#[test]
fn test_field_new_and_widen() {
    let locations = vec![
        Location { width: 2, mask_offset: 0 },
        Location { width: 2, mask_offset: 6 },
    ];
    let name = Name::new('z').unwrap();
    let input_type = Type::Num(BitCount { count: 8 });
    let field = Field::new(name, input_type, 0b1100_0010, Precision::Standard, None, &locations);
    assert_eq!(field.name().to_char(), 'z');
    assert_eq!(field.width(), 4);
    assert_eq!(field.bit_width(), Type::Num(BitCount { count: 8 }));
    // The lower location fills the low bits, the upper location the high ones.
    assert_eq!(field.to_value(), FieldValue::Num(0b1110));
    let widened = field.widen(Type::Num(BitCount { count: 16 }));
    assert_eq!(widened.bit_width(), Type::Num(BitCount { count: 16 }));
    assert_eq!(widened.to_value(), FieldValue::Num(0b1110));
    // A narrower type changes nothing: widening never shrinks.
    let kept = widened.widen(Type::Num(BitCount { count: 8 }));
    assert_eq!(kept.bit_width(), Type::Num(BitCount { count: 16 }));
    assert_eq!(kept.to_value(), FieldValue::Num(0b1110));
}

#[test]
fn test_field_concat_orders_segments() {
    let upper = splitbits(0b0000_0011, "....  ..aa", None).unwrap();
    let lower = splitbits(0b0000_0001, ".... ...a", None).unwrap();
    let joined = upper[0].concat(&lower[0]);
    assert_eq!(joined.width(), 3);
    assert_eq!(joined.to_value(), FieldValue::Num(0b111));
}
