use splitbits::field::Field;
use splitbits::field::FieldValue;
use splitbits::types::BitCount;
use splitbits::types::Type;
use splitbits::splitbits_ux;
use splitbits::splithex_ux;

fn value_of(fields: &Vec<Field>, letter: char) -> FieldValue {
    for f in fields {
        if f.name().to_char() == letter {
            return f.to_value();
        }
    }
    panic!("no field under that name");
}

fn width_of(fields: &Vec<Field>, letter: char) -> Type {
    for f in fields {
        if f.name().to_char() == letter {
            return f.bit_width();
        }
    }
    panic!("no field under that name");
}

fn num(v: u128) -> FieldValue {
    FieldValue::Num(v)
}

fn yes() -> FieldValue {
    FieldValue::Bool(true)
}

fn no() -> FieldValue {
    FieldValue::Bool(false)
}

#[test]
fn test_splitbits_ux_ux() {
    let fields = splitbits_ux(
        0b1101_1101_1000_0100_0000_0000_1111_1001,
        "aaaa bbbb bbbb bbbb bbbb bbbi aajj kaaa",
        None,
    )
    .unwrap();
    assert_eq!(value_of(&fields, 'a'), num(0b1_1011_1001));
    assert_eq!(width_of(&fields, 'a'), Type::Num(BitCount { count: 9 }));
    assert_eq!(value_of(&fields, 'b'), num(0b110_1100_0010_0000_0000));
    assert_eq!(width_of(&fields, 'b'), Type::Num(BitCount { count: 19 }));
    assert_eq!(value_of(&fields, 'i'), no());
    assert_eq!(value_of(&fields, 'j'), num(0b11));
    assert_eq!(width_of(&fields, 'j'), Type::Num(BitCount { count: 2 }));
    assert_eq!(value_of(&fields, 'k'), yes());
}

#[test]
fn test_splitbits_ux_ux_other() {
    let _ = splithex_ux(
        0x2001_0db8_85a3_0000_0000_8a2e_0370_7334,
        "aaaa bbbb cccc .... .... .... dddd ....",
        None,
    )
    .unwrap();
    let _ = splithex_ux(
        0x2001_0db8_85a3_0000_0000_8a2e_0370_7334,
        "aaaa bbbb cccc .... .... .... dddd ....",
        None,
    )
    .unwrap();
    let _ = splithex_ux(
        0x2001_0db8_85a3_0000_0000_8a2e_0370_7334,
        "aaaa bbbb cccc .... .... .... dddd ....",
        None,
    )
    .unwrap();
    let _ = splithex_ux(
        0x2001_0db8_85a3_0000_0000_8a2e_0370_7334,
        "aaaa .... .... .... .... .... .... ....",
        None,
    )
    .unwrap();
}

#[test]
fn test_splitbits_ux_min_u1() {
    let min = Some(Type::Num(BitCount { count: 1 }));
    let fields = splitbits_ux(0b1101110111111001, "aaaaaaaaadddefff", min).unwrap();
    assert_eq!(value_of(&fields, 'a'), num(0b110111011));
    assert_eq!(width_of(&fields, 'a'), Type::Num(BitCount { count: 9 }));
    assert_eq!(value_of(&fields, 'd'), num(0b111));
    assert_eq!(width_of(&fields, 'd'), Type::Num(BitCount { count: 3 }));
    assert_eq!(value_of(&fields, 'e'), num(0b1));
    assert_eq!(width_of(&fields, 'e'), Type::Num(BitCount { count: 1 }));
    assert_eq!(value_of(&fields, 'f'), num(0b001));
    assert_eq!(width_of(&fields, 'f'), Type::Num(BitCount { count: 3 }));
}

#[test]
fn test_splitbits_ux_min_u2() {
    let min = Some(Type::Num(BitCount { count: 2 }));
    let fields = splitbits_ux(0b1101110111111001, "aaaaaaaaadddefff", min).unwrap();
    assert_eq!(value_of(&fields, 'a'), num(0b110111011));
    assert_eq!(value_of(&fields, 'd'), num(0b111));
    assert_eq!(value_of(&fields, 'e'), num(0b1));
    assert_eq!(width_of(&fields, 'e'), Type::Num(BitCount { count: 2 }));
    assert_eq!(value_of(&fields, 'f'), num(0b001));
}
