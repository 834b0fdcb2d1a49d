use splitbits::splitbits_then_combine;
use splitbits::splithex_then_combine;

#[test]
fn test_splitbits_then_combine_split_then_combine_trivial() {
    let result =
        splitbits_then_combine(&vec![(0b1001_1011, "aaaa aaaa")], "aaaa aaaa").unwrap();
    assert_eq!(result, 0b1001_1011);
}

#[test]
fn test_splitbits_then_combine_split_then_combine_swap() {
    let result =
        splitbits_then_combine(&vec![(0b1001_1010, "aaab bbbb")], "bbbb baaa").unwrap();
    assert_eq!(result, 0b1101_0100);
}

#[test]
fn test_splitbits_then_combine_split_then_combine_with_literals() {
    let result =
        splitbits_then_combine(&vec![(0b1001_1011, "..aa ....")], "101a a011").unwrap();
    assert_eq!(result, 0b1010_1011);
}

#[test]
fn test_splitbits_then_combine_split_then_combine_upsize() {
    let result = splitbits_then_combine(
        &vec![(0b1001_0000, "aaaa aaaa"), (0b1111_1010, "bbbb bbbb")],
        "aaaa aaaa bbbb bbbb",
    )
    .unwrap();
    assert_eq!(result, 0b1001_0000_1111_1010);
}

#[test]
fn test_splitbits_then_combine_split_multiple_then_combine() {
    let result = splitbits_then_combine(
        &vec![
            (0b1001_0000, "aaaa ...."),
            (0b1111_1010, ".... ..cc"),
            (0b1111_0011, ".... bb.."),
        ],
        "aaaa bbcc",
    )
    .unwrap();
    assert_eq!(result, 0b1001_0010);
}

#[test]
fn test_splitbits_then_combine_split_then_combine_fields() {
    let result = splitbits_then_combine(
        &vec![
            (0b1001_0000_1111_0000, "aaaa .... .... ...."),
            (0b1111_1010_0111_0000, ".... bbbb aaaa ...."),
        ],
        "0000 bbbb aaaa aaaa",
    )
    .unwrap();
    assert_eq!(result, 0b0000_1010_1001_0111);
}

#[test]
fn test_splitbits_then_combine_split_then_combine_many_fragments() {
    let result = splitbits_then_combine(
        &vec![
            (0b1001_0000_1111_0000, "c.aa .... ...a ...."),
            (0b1111_1010_0111_0000, "..a. ..a. bb.a ...."),
            (0b1111_0011_1111_0000, "..aa aaa. .... ...a"),
        ],
        "bb1a aaaa aaaa aaac",
    )
    .unwrap();
    assert_eq!(result, 0b0110_1111_1110_0101);
}

#[test]
fn split_then_combine_into_fragments() {
    let result = splitbits_then_combine(
        &vec![
            (0b1001_0000_1111_0000, "aaaa .... .... ...."),
            (0b1111_1010_0111_0000, ".... bbbb aaaa ...."),
        ],
        "aa00 bb01 aaab baaa",
    )
    .unwrap();
    assert_eq!(result, 0b1000_1001_0101_0111);
}

#[test]
fn split_then_combine_segments_into_fragments() {
    let result = splitbits_then_combine(
        &vec![
            (0b1001_0000_1111_0000, "c.aa .... ...a ...."),
            (0b1111_1010_0111_0000, "..a. ..a. bb.a ...."),
            (0b1111_0011_1111_0000, "..aa aaa. .... ...a"),
        ],
        "ba1b aaaa aaaa aaca",
    )
    .unwrap();
    assert_eq!(result, 0b0011_1111_1110_0110);
}

#[test]
fn test_splitbits_then_combine_splithex_then_combine() {
    let result = splithex_then_combine(
        &vec![(0xABCD_EF01_2345_6789, "aaab bbbb bbbb bbbb")],
        "bbbb bbbb bbbb baaa",
    )
    .unwrap();
    assert_eq!(result, 0xDEF0_1234_5678_9ABC);
}

#[test]
fn test_splitbits_then_combine_splithex_then_combine_with_literals() {
    let result = splithex_then_combine(
        &vec![(
            0xABCD_EF01_2345_6789_1900_0088_4321_9876,
            ".aa. ..bb b..c dd.. ..ee eeee ee.. ....",
        )],
        "ddAB cCbb bDEF aa01 2345 6789 eeee eeee",
    )
    .unwrap();
    assert_eq!(result, 0x67AB_5C01_2DEF_BC01_2345_6789_0000_8843);
}
