use splitbits::combinebits;
use splitbits::combinehex;
use splitbits::location::OnOverflow;

#[test]
fn test_combinebits_combine_overflow() {
    let a: u128 = 0b1010_0101;
    let result = combinebits(OnOverflow::Truncate, &vec![a], "0aaa aaaa").unwrap();
    assert_eq!(result, 0b0010_0101);
}

#[test]
fn test_combinebits_combine_overflow_truncate() {
    let a: u128 = 0b1010_0101;
    let result = combinebits(OnOverflow::Truncate, &vec![a], "0aaa aaaa").unwrap();
    assert_eq!(result, 0b0010_0101);
}

#[test]
#[should_panic]
fn test_combinebits_combine_overflow_panic() {
    let a: u128 = 0b1010_0101;
    let _ = combinebits(OnOverflow::Panic, &vec![a], "0aaa aaaa").unwrap();
}

#[test]
fn test_combinebits_combine_overflow_corrupt() {
    let a: u128 = 0b1010_0101;
    let result = combinebits(OnOverflow::Corrupt, &vec![a], "0aaa aaaa").unwrap();
    assert_eq!(result, 0b1010_0101);
}

#[test]
fn test_combinebits_combine_overflow_saturate() {
    let a: u128 = 0b1010_0101;
    let result = combinebits(OnOverflow::Saturate, &vec![a], "0aaa aaaa").unwrap();
    assert_eq!(result, 0b0111_1111);
}

#[test]
fn test_combinebits_combine_trivial() {
    let a: u128 = 0b1010_0101_0000_1111;
    let result = combinebits(OnOverflow::Truncate, &vec![a], "aaaa aaaa aaaa aaaa").unwrap();
    assert_eq!(result, a);
}

#[test]
fn test_combinebits_combine_two() {
    let a: u128 = 0b1010_0101;
    let b: u128 = 0b0000_1111;
    let result = combinebits(OnOverflow::Truncate, &vec![a, b], "aaaa aaaa bbbb bbbb").unwrap();
    assert_eq!(result, 0b1010_0101_0000_1111);
}

#[test]
fn test_combinebits_combine_into_multiple_segments() {
    let a: u128 = 0b1010_0101;
    let b: u128 = 0b0000_1111;
    let result = combinebits(OnOverflow::Truncate, &vec![a, b], "aaaa bbbb abbb aaba").unwrap();
    assert_eq!(result, 0b1010_0000_0111_1011);
}

#[test]
fn combine_args_into_multiple_segments() {
    let first: u128 = 0b1010_0101;
    let second: u128 = 0b0000_1111;
    let result =
        combinebits(OnOverflow::Truncate, &vec![first, second], "aaaa bbbb abbb aaba").unwrap();
    assert_eq!(result, 0b1010_0000_0111_1011);
}

#[test]
fn test_combinebits_combine_different_sizes() {
    let a: u128 = 1;
    let b: u128 = 0b00_1111;
    let c: u128 = 0b1_0101_0101_0101;
    let d: u128 = 0b1000_1000_1000_1000_1000_1000_1000_1000_1000_1000;
    let result = combinebits(
        OnOverflow::Truncate,
        &vec![c, a, b, d],
        "cccc cccc cccc cabb bbbb 1011 dddd dddd dddd dddd dddd dddd dddd dddd dddd dddd",
    )
    .unwrap();
    assert_eq!(
        result,
        0b1010_1010_1010_1100_1111_1011_1000_1000_1000_1000_1000_1000_1000_1000_1000_1000,
    );
}

#[test]
fn test_combinebits_combine_ux() {
    let a: u128 = 1;
    let b: u128 = 1;
    let c: u128 = 0b000_0000;
    let d: u128 = 0b00_1111;
    let e: u128 = 0b1_0101_0101;
    let result = combinebits(
        OnOverflow::Truncate,
        &vec![a, b, c, d, e],
        "0000 0000 0000 1a0b ccdd ddde eeee eeee",
    )
    .unwrap();
    assert_eq!(result, 0b0000_0000_0000_1101_0001_1111_0101_0101);
}

#[test]
fn test_combinebits_combine_hex() {
    let a: u128 = 0xA;
    let b: u128 = 0xF0;
    let c: u128 = 0xEEE;
    let result = combinehex(OnOverflow::Truncate, &vec![a, b, c], "a1bbDccc").unwrap();
    assert_eq!(result, 0xA1F0DEEE);
}

#[test]
fn test_combinebits_combine_arguments() {
    let first: u128 = 0b1_0101_0101_0101;
    let second: u128 = 1;
    let third: u128 = 0b00_1111;
    let fourth: u128 = 0b1000_1000_1000_1000_1000_1000_1000_1000_1000_1000;
    let result = combinebits(
        OnOverflow::Truncate,
        &vec![first, second, third, fourth],
        "cccc cccc cccc cabb bbbb 1011 dddd dddd dddd dddd dddd dddd dddd dddd dddd dddd",
    )
    .unwrap();
    assert_eq!(
        result,
        0b1010_1010_1010_1100_1111_1011_1000_1000_1000_1000_1000_1000_1000_1000_1000_1000,
    );
}

#[test]
fn test_combinebits_combine_arguments_literal_arg() {
    let result = combinebits(OnOverflow::Truncate, &vec![0b1010_0101], "aaaa aaaa").unwrap();
    assert_eq!(result, 0b1010_0101);
}

#[test]
fn test_combinebits_combine_arguments_overflow() {
    let arg = 0b1010_0101;
    let result = combinebits(OnOverflow::Truncate, &vec![arg], "0aaa aaaa").unwrap();
    assert_eq!(result, 0b0010_0101);
}

#[test]
fn test_combinebits_combine_arguments_overflow_truncate() {
    let arg = 0b1010_0101;
    let result = combinebits(OnOverflow::Truncate, &vec![arg], "0aaa aaaa").unwrap();
    assert_eq!(result, 0b0010_0101);
}

#[test]
#[should_panic]
fn test_combinebits_combine_arguments_overflow_panic() {
    let arg = 0b1010_0101;
    let _ = combinebits(OnOverflow::Panic, &vec![arg], "0aaa aaaa").unwrap();
}

#[test]
fn test_combinebits_combine_arguments_overflow_corrupt() {
    let arg = 0b1010_0101;
    let result = combinebits(OnOverflow::Corrupt, &vec![arg], "0aaa aaaa").unwrap();
    assert_eq!(result, 0b1010_0101);
}

#[test]
fn test_combinebits_combine_arguments_overflow_saturate() {
    let arg = 0b1010_0101;
    let result = combinebits(OnOverflow::Saturate, &vec![arg], "0aaa aaaa").unwrap();
    assert_eq!(result, 0b0111_1111);
}
