use splitbits::field::Field;
use splitbits::field::FieldValue;
use splitbits::types::BitCount;
use splitbits::types::Type;
use splitbits::splitbits;

fn value_of(fields: &Vec<Field>, letter: char) -> FieldValue {
    for f in fields {
        if f.name().to_char() == letter {
            return f.to_value();
        }
    }
    panic!("no field under that name");
}

fn width_of(fields: &Vec<Field>, letter: char) -> Type {
    for f in fields {
        if f.name().to_char() == letter {
            return f.bit_width();
        }
    }
    panic!("no field under that name");
}

fn num(v: u128) -> FieldValue {
    FieldValue::Num(v)
}

fn yes() -> FieldValue {
    FieldValue::Bool(true)
}

fn no() -> FieldValue {
    FieldValue::Bool(false)
}

#[test]
fn test_splitbits_named_onefield() {
    let fields = splitbits(
        0b1101_1101_1000_0100_0000_0000_1111_1001,
        ".... bbbb bbbb bbbb bbbb bbb. .... ....",
        None,
    )
    .unwrap();
    assert_eq!(fields.len(), 1);
    assert_eq!(value_of(&fields, 'b'), num(0b110_1100_0010_0000_0000));
}

#[test]
fn test_splitbits_named_named() {
    let fields = splitbits(0b1101110111110001, "aaaaaaaaadddefff", None).unwrap();
    assert_eq!(value_of(&fields, 'a'), num(0b110111011));
    assert_eq!(value_of(&fields, 'd'), num(0b111));
    assert_eq!(value_of(&fields, 'e'), no());
    assert_eq!(value_of(&fields, 'f'), num(0b001));
}

#[test]
fn test_splitbits_named_named_preserve_ordering() {
    let fields = splitbits(0b1000_1011, "bdda.cc.", None).unwrap();
    assert_eq!(fields[0].name().to_char(), 'b');
    assert_eq!(fields[1].name().to_char(), 'd');
    assert_eq!(fields[2].name().to_char(), 'a');
    assert_eq!(fields[3].name().to_char(), 'c');
    assert_eq!(fields[0].to_value(), yes());
    assert_eq!(fields[1].to_value(), num(0b00));
    assert_eq!(fields[2].to_value(), no());
    assert_eq!(fields[3].to_value(), num(0b01));
}

#[test]
fn test_splitbits_named_named_existing_variables() {
    let fields = splitbits(0b1101110111110001, "aaaaaaaaadddefff", None).unwrap();
    assert_eq!(value_of(&fields, 'a'), num(0b110111011));
    assert_eq!(value_of(&fields, 'd'), num(0b111));
    assert_eq!(value_of(&fields, 'e'), no());
    assert_eq!(value_of(&fields, 'f'), num(0b001));
}

#[test]
fn test_splitbits_named_into_named_existing_types() {
    let fields = splitbits(0b1101110111110001, "aaaaaaaaadddefff", None).unwrap();
    assert_eq!(value_of(&fields, 'a').to_u128(), 0b110111011);
    assert_eq!(value_of(&fields, 'd').to_u128(), 0b111);
    assert_eq!(value_of(&fields, 'e').to_u128(), 0);
    assert_eq!(value_of(&fields, 'f').to_u128(), 0b001);

    let fields = splitbits(0b1101110111110001, "aaaaaaaaadddefff", None).unwrap();
    assert_eq!(value_of(&fields, 'a').to_u128(), 0b110111011);
    assert_eq!(value_of(&fields, 'd').to_u128(), 0b111);
    assert_eq!(value_of(&fields, 'e').to_u128(), 0);
    assert_eq!(value_of(&fields, 'f').to_u128(), 0b001);
}
