use adobe_swatch_exchange::{ASEError, Buffer, ColorBlock, ColorType, ColorValue, Group};

fn gray(v: f32) -> ColorValue {
    ColorValue::Gray(v.to_bits())
}

fn rgb(r: f32, g: f32, b: f32) -> ColorValue {
    ColorValue::Rgb(r.to_bits(), g.to_bits(), b.to_bits())
}

fn two_color_group(name: &str) -> Group {
    Group::new(
        name.to_owned(),
        vec![
            ColorBlock::new("light grey".to_owned(), gray(0.5), ColorType::Normal),
            ColorBlock::new("dark red".to_owned(), rgb(0.5, 0.3, 0.1), ColorType::Normal),
        ],
    )
}

#[test]
fn group_it_calculates_length_correctly() {
    let group = two_color_group("group name");
    assert_eq!(group.calculate_length(), 108);
}

#[test]
fn group_it_writes_bytes_correctly() {
    let group = two_color_group("group name");
    let mut buf = Buffer::with_capacity(108);
    group.write(&mut buf);
    assert_eq!(
        buf.into_vec(),
        vec![
            192, 1, 0, 0, 0, 108, 0, 11, 0, 103, 0, 114, 0, 111, 0, 117, 0, 112, 0, 32, 0, 110, 0,
            97, 0, 109, 0, 101, 0, 0, 0, 1, 0, 0, 0, 34, 0, 11, 0, 108, 0, 105, 0, 103, 0, 104, 0,
            116, 0, 32, 0, 103, 0, 114, 0, 101, 0, 121, 0, 0, 71, 114, 97, 121, 63, 0, 0, 0, 0, 2,
            0, 1, 0, 0, 0, 38, 0, 9, 0, 100, 0, 97, 0, 114, 0, 107, 0, 32, 0, 114, 0, 101, 0, 100,
            0, 0, 82, 71, 66, 32, 63, 0, 0, 0, 62, 153, 153, 154, 61, 204, 204, 205, 0, 2, 192, 2
        ]
    );
}

#[test]
fn group_it_reads_bytes_correctly() {
    let group = two_color_group("group name");
    assert_eq!(
        group,
        Group::parse(&[
            0, 11, 0, 103, 0, 114, 0, 111, 0, 117, 0, 112, 0, 32, 0, 110, 0, 97, 0, 109, 0, 101,
            0, 0, 0, 1, 0, 0, 0, 34, 0, 11, 0, 108, 0, 105, 0, 103, 0, 104, 0, 116, 0, 32, 0, 103,
            0, 114, 0, 101, 0, 121, 0, 0, 71, 114, 97, 121, 63, 0, 0, 0, 0, 2, 0, 1, 0, 0, 0, 38,
            0, 9, 0, 100, 0, 97, 0, 114, 0, 107, 0, 32, 0, 114, 0, 101, 0, 100, 0, 0, 82, 71, 66,
            32, 63, 0, 0, 0, 62, 153, 153, 154, 61, 204, 204, 205, 0, 2, 192, 2
        ])
        .unwrap()
    );
}

#[test]
fn group_it_reads_empty_name_correctly() {
    let group = two_color_group("");
    assert_eq!(
        group,
        Group::parse(&[
            0, 1, 0, 0, 0, 1, 0, 0, 0, 34, 0, 11, 0, 108, 0, 105, 0, 103, 0, 104, 0, 116, 0, 32,
            0, 103, 0, 114, 0, 101, 0, 121, 0, 0, 71, 114, 97, 121, 63, 0, 0, 0, 0, 2, 0, 1, 0, 0,
            0, 38, 0, 9, 0, 100, 0, 97, 0, 114, 0, 107, 0, 32, 0, 114, 0, 101, 0, 100, 0, 0, 82,
            71, 66, 32, 63, 0, 0, 0, 62, 153, 153, 154, 61, 204, 204, 205, 0, 2, 192, 2
        ])
        .unwrap()
    );
}

#[test]
fn group_it_returns_error_on_empty_input() {
    let parser_result = Group::parse(&[]);
    assert!(
        matches!(parser_result.err(), Some(ASEError::InputDataParseError)),
        "Only ASEError::InputDataParseError should be returned"
    );
}

#[test]
fn group_it_returns_error_on_length_larger_than_input() {
    // try to parse more name bytes than available
    let parser_result = Group::parse(&[12, 34]);
    assert!(
        matches!(parser_result.err(), Some(ASEError::InputDataParseError)),
        "Only ASEError::InputDataParseError should be returned"
    );
}

#[test]
fn group_it_returns_error_on_invalid_utf_16() {
    // `[0xDC, 0x00]` is invalid UTF-16
    let parser_result = Group::parse(&[0, 5, 0xDC, 0x00, 0, 97, 0, 109, 0, 101]);
    assert!(
        matches!(parser_result.err(), Some(ASEError::UTF16Error)),
        "Only ASEError::UTF16Error should be returned"
    );
}

#[test]
fn it_returns_error_on_invalid_block_type() {
    // 0, 255 is not a valid block type
    let parser_result = Group::parse(&[0, 1, 0, 0, 0, 255]);
    assert!(
        matches!(parser_result.err(), Some(ASEError::BlockTypeError)),
        "Only ASEError::BlockTypeError should be returned"
    );
}

#[test]
fn it_returns_on_invalid_block_type() {
    let group = Group::new(
        "".to_owned(),
        vec![ColorBlock::new(
            "light grey".to_owned(),
            gray(0.5),
            ColorType::Normal,
        )],
    );
    assert_eq!(
        group,
        Group::parse(&[
            0, 1, 0, 0, 0, 1, 0, 0, 0, 34, 0, 11, 0, 108, 0, 105, 0, 103, 0, 104, 0, 116, 0, 32,
            0, 103, 0, 114, 0, 101, 0, 121, 0, 0, 71, 114, 97, 121, 63, 0, 0, 0, 0, 2,
            // second block, start with 0xc001 (GroupStart) instead of 0x0001 (ColorEntry), so
            // that the parser stops early
            0xc0, 1, 0, 0, 0, 38, 0, 9, 0, 100, 0, 97, 0, 114, 0, 107, 0, 32, 0, 114, 0, 101, 0,
            100, 0, 0, 82, 71, 66, 32, 63, 0, 0, 0, 62, 153, 153, 154, 61, 204, 204, 205, 0, 2,
            192, 2
        ])
        .unwrap()
    );
}

#[test]
fn it_returns_on_invalid_block() {
    let group = Group::new(
        "".to_owned(),
        vec![ColorBlock::new(
            "light grey".to_owned(),
            gray(0.5),
            ColorType::Normal,
        )],
    );
    assert_eq!(
        group,
        Group::parse(&[
            0, 1, 0, 0, 0, 1, 0, 0, 0, 34, 0, 11, 0, 108, 0, 105, 0, 103, 0, 104, 0, 116, 0, 32,
            0, 103, 0, 114, 0, 101, 0, 121, 0, 0, 71, 114, 97, 121, 63, 0, 0, 0, 0, 2,
            // second block, invalid, since half of it is missing
            0, 1, 0, 0, 0, 38, 0, 9, 0, 100, 0, 97, 0, 114, 0, 107, 0, 32, 0, 114, 0, 101, 0, 100,
            0, 0, 82, 71, 66, 32, 63, 0, 0
        ])
        .unwrap()
    );
}

#[test]
fn it_returns_error_on_invalid_block_length() {
    let parser_result = Group::parse(&[
        //has block length of `34`, replacing it with invalid length of 13
        0, 1, 0, 0, 0, 1, 0, 0, 0, 13, 0, 11, 0, 108, 0, 105, 0, 103, 0, 104, 0, 116, 0, 32, 0,
        103, 0, 114, 0, 101, 0, 121, 0, 0, 71, 114, 97, 121, 63, 0, 0, 0, 0, 2, 0, 1, 0, 0, 0, 38,
        0, 9, 0, 100, 0, 97, 0, 114, 0, 107, 0, 32, 0, 114, 0, 101, 0, 100, 0, 0, 82, 71, 66, 32,
        63, 0, 0, 0, 62, 153, 153, 154, 61, 204, 204, 205, 0, 2, 192, 2,
    ]);
    assert!(parser_result.is_err());
    assert!(
        matches!(parser_result.err(), Some(ASEError::BlockTypeError)),
        "Only ASEError::BlockTypeError should be returned"
    );
}

#[test]
fn it_returns_block_on_invalid_block_length() {
    let group = Group::new(
        "".to_owned(),
        vec![ColorBlock::new(
            "light grey".to_owned(),
            gray(0.5),
            ColorType::Normal,
        )],
    );
    let parser_result = Group::parse(&[
        //has block length of `34`, replacing it with invalid length of 130
        0, 1, 0, 0, 0, 1, 0, 0, 0, 130, 0, 11, 0, 108, 0, 105, 0, 103, 0, 104, 0, 116, 0, 32, 0,
        103, 0, 114, 0, 101, 0, 121, 0, 0, 71, 114, 97, 121, 63, 0, 0, 0, 0, 2, 0, 1, 0, 0, 0, 38,
        0, 9, 0, 100, 0, 97, 0, 114, 0, 107, 0, 32, 0, 114, 0, 101, 0, 100, 0, 0, 82, 71, 66, 32,
        63, 0, 0, 0, 62, 153, 153, 154, 61, 204, 204, 205, 0, 2, 192, 2,
    ]);
    assert!(parser_result.is_ok());
    assert_eq!(group, parser_result.unwrap());
}
