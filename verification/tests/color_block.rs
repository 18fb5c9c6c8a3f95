use adobe_swatch_exchange::{ASEError, Buffer, ColorBlock, ColorType, ColorValue};

fn gray(v: f32) -> ColorValue {
    ColorValue::Gray(v.to_bits())
}

#[test]
fn color_block_it_calculates_length_correctly() {
    let block = ColorBlock::new("name".to_owned(), gray(0.5), ColorType::Normal);
    assert_eq!(block.calculate_length(), 22);
}

#[test]
fn color_block_it_writes_bytes_correctly() {
    let block = ColorBlock::new("name".to_owned(), gray(0.5), ColorType::Normal);
    let mut buf = Buffer::with_capacity(22);
    block.write(&mut buf);
    assert_eq!(
        buf.into_vec(),
        vec![
            0, 1, 0, 0, 0, 22, 0, 5, 0, 110, 0, 97, 0, 109, 0, 101, 0, 0, 71, 114, 97, 121, 63, 0,
            0, 0, 0, 2
        ]
    );
}

#[test]
fn color_block_it_reads_bytes_correctly() {
    let block = ColorBlock::new("name".to_owned(), gray(0.5), ColorType::Normal);
    assert_eq!(
        block,
        ColorBlock::parse(&[
            0, 5, 0, 110, 0, 97, 0, 109, 0, 101, 0, 0, 71, 114, 97, 121, 63, 0, 0, 0, 0, 2
        ])
        .unwrap()
    );
}

#[test]
fn color_block_it_reads_empty_name_correctly() {
    let block = ColorBlock::new("".to_owned(), gray(0.5), ColorType::Normal);
    assert_eq!(
        block,
        ColorBlock::parse(&[0, 1, 0, 0, 71, 114, 97, 121, 63, 0, 0, 0, 0, 2]).unwrap()
    );
}

#[test]
fn color_block_it_returns_error_on_empty_input() {
    let parser_result = ColorBlock::parse(&[]);
    assert!(
        matches!(parser_result.err(), Some(ASEError::InputDataParseError)),
        "Only ASEError::InputDataParseError should be returned"
    );
}

#[test]
fn color_block_it_returns_error_on_length_larger_than_input() {
    // try to parse more name bytes than available
    let parser_result = ColorBlock::parse(&[12, 34]);
    assert!(
        matches!(parser_result.err(), Some(ASEError::InputDataParseError)),
        "Only ASEError::InputDataParseError should be returned"
    );
}

#[test]
fn color_block_it_returns_error_on_invalid_utf_16() {
    // `[0xDC, 0x00]` is invalid UTF-16
    let parser_result = ColorBlock::parse(&[0, 5, 0xDC, 0x00, 0, 97, 0, 109, 0, 101]);
    assert!(
        matches!(parser_result.err(), Some(ASEError::UTF16Error)),
        "Only ASEError::UTF16Error should be returned"
    );
}

#[test]
fn it_returns_error_on_missing_color_value() {
    let parser_result = ColorBlock::parse(&[0, 1, 0, 0, 71]);
    assert!(
        matches!(parser_result.err(), Some(ASEError::InputDataParseError)),
        "Only ASEError::InputDataParseError should be returned"
    );
}

#[test]
fn it_returns_error_on_missing_color_type() {
    let parser_result = ColorBlock::parse(&[0, 1, 0, 0, 71, 114, 97, 121, 63, 0, 0, 0, 0]);
    assert!(
        matches!(parser_result.err(), Some(ASEError::InputDataParseError)),
        "Only ASEError::InputDataParseError should be returned"
    );
}

#[test]
fn it_returns_error_on_invalid_color_type() {
    // `28` is not a valid color type, valid is only 0, 1 and 2
    let parser_result = ColorBlock::parse(&[0, 1, 0, 0, 71, 114, 97, 121, 63, 0, 0, 0, 0, 28]);
    assert!(
        matches!(parser_result.err(), Some(ASEError::ColorTypeError)),
        "Only ASEError::ColorTypeError should be returned"
    );
}
