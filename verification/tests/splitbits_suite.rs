use splitbits::field::Field;
use splitbits::field::FieldValue;
use splitbits::types::BitCount;
use splitbits::types::Type;
use splitbits::splitbits;

fn value_of(fields: &Vec<Field>, letter: char) -> FieldValue {
    for f in fields {
        if f.name().to_char() == letter {
            return f.to_value();
        }
    }
    panic!("no field under that name");
}

fn width_of(fields: &Vec<Field>, letter: char) -> Type {
    for f in fields {
        if f.name().to_char() == letter {
            return f.bit_width();
        }
    }
    panic!("no field under that name");
}

fn num(v: u128) -> FieldValue {
    FieldValue::Num(v)
}

fn yes() -> FieldValue {
    FieldValue::Bool(true)
}

fn no() -> FieldValue {
    FieldValue::Bool(false)
}

#[test]
fn test_splitbits_u8() {
    let fields = splitbits(0b11011101, "aaabbccc", None).unwrap();
    assert_eq!(value_of(&fields, 'a'), num(0b110));
    assert_eq!(value_of(&fields, 'b'), num(0b11));
    assert_eq!(value_of(&fields, 'c'), num(0b101));
}

#[test]
fn test_splitbits_decimal() {
    let fields = splitbits(221, "aaabbccc", None).unwrap();
    assert_eq!(value_of(&fields, 'a'), num(0b110));
    assert_eq!(value_of(&fields, 'b'), num(0b11));
    assert_eq!(value_of(&fields, 'c'), num(0b101));
}

#[test]
fn test_splitbits_variable() {
    let fields = splitbits(221, "aaabbccc", None).unwrap();
    assert_eq!(value_of(&fields, 'a'), num(0b110));
    assert_eq!(value_of(&fields, 'b'), num(0b11));
    assert_eq!(value_of(&fields, 'c'), num(0b101));
}

#[test]
fn test_splitbits_variable_type_inferred() {
    let fields = splitbits(221, "aaabbccc", None).unwrap();
    assert_eq!(value_of(&fields, 'a'), num(0b110));
    assert_eq!(value_of(&fields, 'b'), num(0b11));
    assert_eq!(value_of(&fields, 'c'), num(0b101));
}

#[test]
fn test_splitbits_bools() {
    let fields = splitbits(0b11010101, "abbbcdee", None).unwrap();
    assert_eq!(value_of(&fields, 'a'), yes());
    assert_eq!(value_of(&fields, 'b'), num(0b101));
    assert_eq!(value_of(&fields, 'c'), no());
    assert_eq!(value_of(&fields, 'd'), yes());
    assert_eq!(value_of(&fields, 'e'), num(0b01));
}

#[test]
fn test_splitbits_periods() {
    let fields = splitbits(0b11011101, ".aa.bb..", None).unwrap();
    assert_eq!(value_of(&fields, 'a'), num(0b10));
    assert_eq!(value_of(&fields, 'b'), num(0b11));
}

#[test]
fn test_splitbits_underscores() {
    let fields = splitbits(0b110_11101, " a aa   b bccc  ", None).unwrap();
    assert_eq!(value_of(&fields, 'a'), num(0b110));
    assert_eq!(value_of(&fields, 'b'), num(0b11));
    assert_eq!(value_of(&fields, 'c'), num(0b101));
}

#[test]
fn test_splitbits_noncontinguous() {
    let fields = splitbits(0b1101_1101, "abadadda", None).unwrap();
    assert_eq!(value_of(&fields, 'a'), num(0b1011));
    assert_eq!(value_of(&fields, 'b'), yes());
    assert_eq!(value_of(&fields, 'd'), num(0b110));
}

#[test]
fn test_splitbits_some_of_everything() {
    let fields = splitbits(0b1111_1101, ".ad. cdd.", None).unwrap();
    assert_eq!(value_of(&fields, 'a'), yes());
    assert_eq!(value_of(&fields, 'c'), yes());
    assert_eq!(value_of(&fields, 'd'), num(0b110));
}

#[test]
fn test_splitbits_duplicate() {
    let fields = splitbits(0b11011101, "aaabbccc", None).unwrap();
    assert_eq!(value_of(&fields, 'a'), num(0b110));
    assert_eq!(value_of(&fields, 'b'), num(0b11));
    assert_eq!(value_of(&fields, 'c'), num(0b101));

    let fields2 = splitbits(0b01001100, "aaabbccc", None).unwrap();
    assert_eq!(value_of(&fields2, 'a'), num(0b010));
    assert_eq!(value_of(&fields2, 'b'), num(0b01));
    assert_eq!(value_of(&fields2, 'c'), num(0b100));
}

#[test]
fn test_splitbits_u16() {
    let fields = splitbits(0b1101110111111001, "aaaaaaaaadddefff", None).unwrap();
    assert_eq!(value_of(&fields, 'a'), num(0b110111011));
    assert_eq!(value_of(&fields, 'd'), num(0b111));
    assert_eq!(value_of(&fields, 'e'), yes());
    assert_eq!(value_of(&fields, 'f'), num(0b001));
}

#[test]
fn test_splitbits_u32() {
    let fields = splitbits(0b1101_1101_1000_0100_0000_0000_1111_1001, "aaaa bbbb bbbb bbbb bbbb bbbi jjjj klll", None).unwrap();
    assert_eq!(value_of(&fields, 'a'), num(0b1101));
    assert_eq!(value_of(&fields, 'b'), num(0b110_1100_0010_0000_0000));
    assert_eq!(value_of(&fields, 'i'), no());
    assert_eq!(value_of(&fields, 'j'), num(0b1111));
    assert_eq!(value_of(&fields, 'k'), yes());
    assert_eq!(value_of(&fields, 'l'), num(0b001));
}

#[test]
fn test_splitbits_u64() {
    let fields = splitbits(0b1101_1101_1000_0000_0000_0000_1111_0001_1101_1101_1000_0000_0000_0000_1101_0001, "aaaa bbbb bbbb bbbb bbbb bbbi jjjk klll mmmm nnoo pppq qrrr ssst tuuu uuvw xxxx", None).unwrap();
    assert_eq!(value_of(&fields, 'a'), num(0b1101));
    assert_eq!(value_of(&fields, 'b'), num(0b110_1100_0000_0000_0000));
    assert_eq!(value_of(&fields, 'i'), no());
    assert_eq!(value_of(&fields, 'j'), num(0b111));
    assert_eq!(value_of(&fields, 'k'), num(0b10));
    assert_eq!(value_of(&fields, 'l'), num(0b001));
    assert_eq!(value_of(&fields, 'm'), num(0b1101));
    assert_eq!(value_of(&fields, 'n'), num(0b11));
    assert_eq!(value_of(&fields, 'o'), num(0b01));
    assert_eq!(value_of(&fields, 'p'), num(0b100));
    assert_eq!(value_of(&fields, 'q'), num(0b00));
    assert_eq!(value_of(&fields, 'r'), num(0b000));
    assert_eq!(value_of(&fields, 's'), num(0b000));
    assert_eq!(value_of(&fields, 't'), num(0b00));
    assert_eq!(value_of(&fields, 'u'), num(0b00011));
    assert_eq!(value_of(&fields, 'v'), no());
    assert_eq!(value_of(&fields, 'w'), yes());
    assert_eq!(value_of(&fields, 'x'), num(0b0001));
}

#[test]
fn test_splitbits_u128() {
    let fields = splitbits(0b1101_1101_1000_0100_0001_0000_1111_0001_1101_1101_1000_0000_0100_0110_1101_0001_1101_1101_1000_0000_1001_0000_1111_0001_1101_1101_1000_0000_0000_0000_1101_0001, "aaaa bbcc cdde efff ffff ff.. .... gg.. ...h hiii iiii iiii iiii iiii iiii iiii iiii iiii iiii iiii iiii iiii iiii iiii iiii iii. pppq qrrr ssst tuuu vvvw wxxx", None).unwrap();
    assert_eq!(value_of(&fields, 'a'), num(0b1101));
    assert_eq!(value_of(&fields, 'b'), num(0b11));
    assert_eq!(value_of(&fields, 'c'), num(0b011));
    assert_eq!(value_of(&fields, 'd'), num(0b00));
    assert_eq!(value_of(&fields, 'e'), num(0b00));
    assert_eq!(value_of(&fields, 'f'), num(0b1_0000_0100));
    assert_eq!(value_of(&fields, 'g'), num(0b00));
    assert_eq!(value_of(&fields, 'h'), num(0b11));
    assert_eq!(value_of(&fields, 'i'), num(0b10_1100_0000_0010_0011_0110_1000_1110_1110_1100_0000_0100_1000_0111_1000_1110_1110));
    assert_eq!(value_of(&fields, 'p'), num(0b100));
    assert_eq!(value_of(&fields, 'q'), num(0b00));
    assert_eq!(value_of(&fields, 'r'), num(0b000));
    assert_eq!(value_of(&fields, 's'), num(0b000));
    assert_eq!(value_of(&fields, 't'), num(0b00));
    assert_eq!(value_of(&fields, 'u'), num(0b000));
    assert_eq!(value_of(&fields, 'v'), num(0b110));
    assert_eq!(value_of(&fields, 'w'), num(0b10));
    assert_eq!(value_of(&fields, 'x'), num(0b0001));
}

#[test]
fn test_splitbits_min_u8() {
    let fields = splitbits(0b1101110111111001, "aaaaaaaaadddefff", Some(Type::Num(BitCount { count: 8 }))).unwrap();
    assert_eq!(value_of(&fields, 'a'), num(0b110111011));
    assert_eq!(value_of(&fields, 'd'), num(0b111));
    assert_eq!(value_of(&fields, 'e'), num(0b1));
    assert_eq!(value_of(&fields, 'f'), num(0b001));
}

#[test]
fn test_splitbits_min_u16() {
    let fields = splitbits(0b1101110111111001, "aaaaaaaaadddefff", Some(Type::Num(BitCount { count: 16 }))).unwrap();
    assert_eq!(value_of(&fields, 'a'), num(0b110111011));
    assert_eq!(value_of(&fields, 'd'), num(0b111));
    assert_eq!(width_of(&fields, 'd'), Type::Num(BitCount { count: 16 }));
    assert_eq!(value_of(&fields, 'e'), num(0b1));
    assert_eq!(value_of(&fields, 'f'), num(0b001));
}
