use splitbits::location::OnOverflow;
use splitbits::replacebits;
use splitbits::replacehex;

#[test]
fn test_replacebits_replace() {
    let a: u128 = 0b101;
    let b: u128 = 0b00001;
    let c: u128 = 0b0101;
    let d: u128 = 0;
    let result = replacebits(
        OnOverflow::Truncate,
        0b1001_1010_1100_1111,
        &vec![a, b, d, c],
        "aaab bbbb .d.. cccc",
    )
    .unwrap();
    assert_eq!(result, 0b1010_0001_1000_0101);
}

#[test]
fn replace_var() {
    let var: u128 = 0b1001_1010_1100_1111;
    let a: u128 = 0b101;
    let b: u128 = 0b00001;
    let c: u128 = 0b0101;
    let d: u128 = 0;
    let result =
        replacebits(OnOverflow::Truncate, var, &vec![a, b, d, c], "aaab bbbb .d.. cccc").unwrap();
    assert_eq!(result, 0b1010_0001_1000_0101);
}

#[test]
fn replace_with_literal() {
    let a: u128 = 0b101;
    let b: u128 = 0b00001;
    let c: u128 = 0b0101;
    let d: u128 = 0;
    let result = replacebits(
        OnOverflow::Truncate,
        0b1001_1010_1100_1111,
        &vec![a, b, d, c],
        "aaab bbbb 0d11 cccc",
    )
    .unwrap();
    assert_eq!(result, 0b1010_0001_0011_0101);
}

#[test]
fn replace_segments() {
    let a: u128 = 0b101;
    let b: u128 = 0b00001;
    let c: u128 = 0b0101;
    let d: u128 = 1;
    let result = replacebits(
        OnOverflow::Truncate,
        0b1001_1010_1100_1111,
        &vec![a, b, c, d],
        "aabb bbab .c.. ccdc",
    )
    .unwrap();
    assert_eq!(result, 0b1000_0011_1000_1011);
}

#[test]
fn replace_too_big() {
    let a: u128 = 0b110;
    let b: u128 = 0b00001;
    let c: u128 = 0b0101;
    let d: u128 = 0;
    let result = replacebits(
        OnOverflow::Truncate,
        0b0001_1010_1100_1111,
        &vec![a, b, d, c],
        ".aab bbbb .d.. cccc",
    )
    .unwrap();
    assert_eq!(result, 0b0100_0001_1000_0101);
}

#[test]
fn replace_too_big_truncate() {
    let a: u128 = 0b110;
    let b: u128 = 0b00001;
    let c: u128 = 0b0101;
    let d: u128 = 0;
    let result = replacebits(
        OnOverflow::Truncate,
        0b0001_1010_1100_1111,
        &vec![a, b, d, c],
        ".aab bbbb .d.. cccc",
    )
    .unwrap();
    assert_eq!(result, 0b0100_0001_1000_0101);
}

#[test]
#[should_panic]
fn replace_too_big_panic() {
    let a: u128 = 0b110;
    let b: u128 = 0b00001;
    let c: u128 = 0b0101;
    let d: u128 = 0;
    let _ = replacebits(
        OnOverflow::Panic,
        0b0001_1010_1100_1111,
        &vec![a, b, d, c],
        ".aab bbbb .d.. cccc",
    )
    .unwrap();
}

#[test]
fn replace_too_big_saturate() {
    let a: u128 = 0b110;
    let b: u128 = 0b00001;
    let c: u128 = 0b0101;
    let d: u128 = 0;
    let result = replacebits(
        OnOverflow::Saturate,
        0b0001_1010_1100_1111,
        &vec![a, b, d, c],
        ".aab bbbb .d.. cccc",
    )
    .unwrap();
    assert_eq!(result, 0b0110_0001_1000_0101);
}

#[test]
fn replace_too_big_corrupt() {
    let a: u128 = 0b1101;
    let b: u128 = 0b00001;
    let c: u128 = 0b0101;
    let d: u128 = 0;
    let result = replacebits(
        OnOverflow::Corrupt,
        0b0001_1010_1100_1111,
        &vec![a, b, d, c],
        ".aab bbbb .d.. cccc",
    )
    .unwrap();
    assert_eq!(result, 0b1010_0001_1000_0101);
}

#[test]
fn test_replacebits_replacehex_ux() {
    let a: u128 = 0xE;
    let c: u128 = 0x2A;
    let b: u128 = 0x90210AB;
    let result = replacehex(
        OnOverflow::Truncate,
        0xABCD_EF01_2345_6789,
        &vec![a, c, b],
        "0a.. cc.b bbbb bb1D",
    )
    .unwrap();
    assert_eq!(result, 0x0ECD_2A09_0210_AB1D);
}
