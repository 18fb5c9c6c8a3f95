use adobe_swatch_exchange::{
    create_ase, read_ase, ASEError, ColorBlock, ColorType, ColorValue, Group,
};

fn gray(v: f32) -> ColorValue {
    ColorValue::Gray(v.to_bits())
}

#[test]
fn reads_building_group_without_group_end_at_eof() {
    // non-conformant layout: a GroupStart sized to hold only the name
    // "g", one top-level color that belongs to it, and no GroupEnd
    // before the end of the stream; the count covers both blocks
    let mut bytes = vec![65, 83, 69, 70, 0, 1, 0, 0, 0, 0, 0, 2];
    // GroupStart, length 6, name "g" (2 units including terminator)
    bytes.extend_from_slice(&[0xc0, 0x01, 0, 0, 0, 6, 0, 2, 0, 103, 0, 0]);
    // ColorEntry "name" Gray(0.5) Normal
    bytes.extend_from_slice(&[
        0, 1, 0, 0, 0, 22, 0, 5, 0, 110, 0, 97, 0, 109, 0, 101, 0, 0, 71, 114, 97, 121, 63, 0, 0,
        0, 0, 2,
    ]);
    let expected = Group::new(
        "g".to_owned(),
        vec![ColorBlock::new(
            "name".to_owned(),
            gray(0.5),
            ColorType::Normal,
        )],
    );
    let res = read_ase(&bytes);
    assert!(res.is_ok());
    assert_eq!(res.unwrap(), (vec![expected], vec![]));
}

#[test]
fn unterminated_prebuilt_group_fails() {
    // conformant layout cut off before its GroupEnd: the GroupStart's
    // payload already holds the group's color, so the decoder still
    // owes a GroupEnd when the bytes run out
    let group = Group::new(
        "g".to_owned(),
        vec![ColorBlock::new(
            "name".to_owned(),
            gray(0.5),
            ColorType::Normal,
        )],
    );
    let full = create_ase(vec![group], vec![]);
    // drop the trailing GroupEnd tag
    let cut = &full[..full.len() - 2];
    let res = read_ase(cut);
    assert!(matches!(res.err(), Some(ASEError::Io)));
}

#[test]
fn zero_padding_after_group_end_is_skipped() {
    let group = Group::new(
        "g".to_owned(),
        vec![ColorBlock::new(
            "name".to_owned(),
            gray(0.5),
            ColorType::Normal,
        )],
    );
    let block = ColorBlock::new("solo".to_owned(), gray(0.25), ColorType::Spot);
    let plain = create_ase(vec![group.clone()], vec![block.clone()]);
    let expected = read_ase(&plain).unwrap();

    // wedge one zero word in right after the GroupEnd tag, which ends
    // the group's bytes; the count is not inflated
    let group_bytes_end = 12 + 2 + 4 + 6 + 28 + 2;
    let mut padded = vec![0; 0];
    padded.extend_from_slice(&plain[..group_bytes_end]);
    padded.extend_from_slice(&[0, 0]);
    padded.extend_from_slice(&plain[group_bytes_end..]);
    let res = read_ase(&padded);
    assert!(res.is_ok());
    assert_eq!(res.unwrap(), expected);
    assert_eq!(expected, (vec![group], vec![block]));
}

#[test]
fn three_zero_words_after_group_end_fail() {
    // the skip window closes after two zero words: a third is read as a
    // block tag and rejected
    let group = Group::new(
        "g".to_owned(),
        vec![ColorBlock::new(
            "name".to_owned(),
            gray(0.5),
            ColorType::Normal,
        )],
    );
    let block = ColorBlock::new("solo".to_owned(), gray(0.25), ColorType::Spot);
    let plain = create_ase(vec![group], vec![block]);
    let group_bytes_end = 12 + 2 + 4 + 6 + 28 + 2;
    let mut padded = vec![0; 0];
    padded.extend_from_slice(&plain[..group_bytes_end]);
    padded.extend_from_slice(&[0, 0, 0, 0, 0, 0]);
    padded.extend_from_slice(&plain[group_bytes_end..]);
    let res = read_ase(&padded);
    assert!(matches!(res.err(), Some(ASEError::BlockTypeError)));
}

#[test]
fn round_trips_single_empty_group() {
    let group = Group::new("empty".to_owned(), vec![]);
    let res = read_ase(&create_ase(vec![group.clone()], vec![]));
    assert!(res.is_ok());
    assert_eq!(res.unwrap(), (vec![group], vec![]));
}

#[test]
fn round_trips_non_ascii_names() {
    // "grün" takes one UTF-16 unit per character; the emoji needs a
    // surrogate pair, so its unit count differs from its char count
    let block = ColorBlock::new(
        "tränen 😀".to_owned(),
        ColorValue::Lab(
            (0.31_f32).to_bits(),
            (12.5_f32).to_bits(),
            (-3.25_f32).to_bits(),
        ),
        ColorType::Global,
    );
    let group = Group::new(
        "grün".to_owned(),
        vec![ColorBlock::new(
            "空色".to_owned(),
            ColorValue::Cmyk(
                (0.1_f32).to_bits(),
                (0.2_f32).to_bits(),
                (0.3_f32).to_bits(),
                (0.4_f32).to_bits(),
            ),
            ColorType::Spot,
        )],
    );
    let res = read_ase(&create_ase(vec![group.clone()], vec![block.clone()]));
    assert!(res.is_ok());
    assert_eq!(res.unwrap(), (vec![group], vec![block]));
}

#[test]
fn truncated_header_reports_io_error() {
    assert!(matches!(read_ase(&[65, 83]).err(), Some(ASEError::Io)));
    assert!(matches!(
        read_ase(&[65, 83, 69, 70, 0, 1]).err(),
        Some(ASEError::Io)
    ));
    assert!(matches!(
        read_ase(&[65, 83, 69, 70, 0, 1, 0, 0, 0, 0]).err(),
        Some(ASEError::Io)
    ));
}

#[test]
fn truncated_block_stream_reports_io_error() {
    // the count promises one block but the stream ends at the header
    let res = read_ase(&[65, 83, 69, 70, 0, 1, 0, 0, 0, 0, 0, 1]);
    assert!(matches!(res.err(), Some(ASEError::Io)));
}

#[test]
fn group_end_without_group_fails() {
    // a lone GroupEnd with nothing held open
    let res = read_ase(&[65, 83, 69, 70, 0, 1, 0, 0, 0, 0, 0, 1, 0xc0, 0x02]);
    assert!(matches!(
        res.err(),
        Some(ASEError::Invalid(
            adobe_swatch_exchange::ConformationError::GroupEnd
        ))
    ));
}
