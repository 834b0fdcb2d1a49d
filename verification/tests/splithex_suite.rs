use splitbits::field::Field;
use splitbits::field::FieldValue;
use splitbits::types::BitCount;
use splitbits::types::Type;
use splitbits::splithex;

fn value_of(fields: &Vec<Field>, letter: char) -> FieldValue {
    for f in fields {
        if f.name().to_char() == letter {
            return f.to_value();
        }
    }
    panic!("no field under that name");
}

fn width_of(fields: &Vec<Field>, letter: char) -> Type {
    for f in fields {
        if f.name().to_char() == letter {
            return f.bit_width();
        }
    }
    panic!("no field under that name");
}

fn num(v: u128) -> FieldValue {
    FieldValue::Num(v)
}

fn yes() -> FieldValue {
    FieldValue::Bool(true)
}

fn no() -> FieldValue {
    FieldValue::Bool(false)
}

#[test]
fn test_splithex_hex() {
    let fields = splithex(
        0x2001_0db8_85a3_0000_0000_8a2e_0370_7334,
        "aaaa bbbb cccc dddd eeee ffff gggg hhhh",
        None,
    )
    .unwrap();
    assert_eq!(value_of(&fields, 'a'), num(0x2001));
    assert_eq!(value_of(&fields, 'b'), num(0x0db8));
    assert_eq!(value_of(&fields, 'c'), num(0x85a3));
    assert_eq!(value_of(&fields, 'd'), num(0x0000));
    assert_eq!(value_of(&fields, 'e'), num(0x0000));
    assert_eq!(value_of(&fields, 'f'), num(0x8a2e));
    assert_eq!(value_of(&fields, 'g'), num(0x0370));
    assert_eq!(value_of(&fields, 'h'), num(0x7334));
}

#[test]
fn test_splithex_hex_named() {
    let fields = splithex(
        0x2001_0db8_85a3_0000_0000_8a2e_0370_7334,
        "aaaa bbbb cccc .... eeee ffff hhhh hhhh",
        None,
    )
    .unwrap();
    assert_eq!(value_of(&fields, 'a'), num(0x2001));
    assert_eq!(value_of(&fields, 'b'), num(0x0db8));
    assert_eq!(value_of(&fields, 'c'), num(0x85a3));
    assert_eq!(value_of(&fields, 'e'), num(0x0000));
    assert_eq!(value_of(&fields, 'f'), num(0x8a2e));
    assert_eq!(value_of(&fields, 'h'), num(0x0370_7334));
}

#[test]
fn test_splithex_hex_named_into() {
    let fields = splithex(
        0x2101_0db8_85a3_0000_0000_8a2e_0370_7334,
        "abbb bbbb bbbb bbbb bbbe ffff ffff hhii",
        None,
    )
    .unwrap();
    assert_eq!(value_of(&fields, 'a'), num(0x2));
    assert_eq!(value_of(&fields, 'b'), num(0x10_10db_885a_3000_0000));
    assert_eq!(value_of(&fields, 'e'), num(0x0));
    assert_eq!(value_of(&fields, 'f'), num(0x8a2e_0370));
    assert_eq!(value_of(&fields, 'h'), num(0x73));
    assert_eq!(value_of(&fields, 'i'), num(0x34));
}

#[test]
fn test_splithex_onehex() {
    let fields = splithex(
        0x2001_0db8_85a3_0000_0000_8a2e_0370_7334,
        ".... bbbb .... .... .... .... .... ....",
        None,
    )
    .unwrap();
    assert_eq!(fields.len(), 1);
    assert_eq!(value_of(&fields, 'b'), num(0x0db8));
}
