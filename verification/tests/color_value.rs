use adobe_swatch_exchange::{ASEError, Buffer, ColorValue};

#[test]
fn it_parses_cmyk() {
    let cmyk = ColorValue::Cmyk(
        (0.0_f32).to_bits(),
        (49.0_f32).to_bits(),
        (54.0_f32).to_bits(),
        (25.0_f32).to_bits(),
    );
    let mut buffer = Buffer::with_capacity(20);
    buffer.write_slice(cmyk.get_type().as_slice());
    cmyk.clone().write_values(&mut buffer);
    let res = ColorValue::try_from(buffer.into_vec().as_slice());
    assert!(res.is_ok());
    assert_eq!(cmyk, res.unwrap());
}

#[test]
fn it_parses_rgb() {
    let rgb = ColorValue::Rgb(
        (0.749_019_6_f32).to_bits(),
        (0.380_392_16_f32).to_bits(),
        (0.415_686_28_f32).to_bits(),
    );
    let mut buffer = Buffer::with_capacity(20);
    buffer.write_slice(rgb.get_type().as_slice());
    rgb.clone().write_values(&mut buffer);
    let res = ColorValue::try_from(buffer.into_vec().as_slice());
    assert!(res.is_ok());
    assert_eq!(rgb, res.unwrap());
}

#[test]
fn it_parses_lab() {
    // the first channel holds the on-disk form: the logical lightness
    // 0.525_823_97 scaled by 1/100
    let color = ColorValue::Lab(
        (0.525_823_97_f32 / 100.0).to_bits(),
        (38.506_775_f32).to_bits(),
        (12.420_94_f32).to_bits(),
    );
    let mut buffer = Buffer::with_capacity(20);
    buffer.write_slice(color.get_type().as_slice());
    color.clone().write_values(&mut buffer);
    let res = ColorValue::try_from(buffer.into_vec().as_slice());
    assert!(res.is_ok());
    assert_eq!(color, res.unwrap());
}

#[test]
fn it_parses_gray() {
    let gray = ColorValue::Gray((0.749_019_6_f32).to_bits());
    let mut buffer = Buffer::with_capacity(8);
    buffer.write_slice(gray.get_type().as_slice());
    gray.clone().write_values(&mut buffer);
    let res = ColorValue::try_from(buffer.into_vec().as_slice());
    assert!(res.is_ok());
    assert_eq!(gray, res.unwrap());
}

#[test]
fn it_returns_input_data_parse_error() {
    let data = vec![];
    let res = ColorValue::try_from(&*data);
    assert!(
        matches!(res.err(), Some(ASEError::InputDataParseError)),
        "Only ASEError::InputDataParseError should be returned"
    );
}

#[test]
fn it_returns_color_format_error() {
    let data = b"ABCD";
    let res = ColorValue::try_from(data.as_slice());
    assert!(
        matches!(res.err(), Some(ASEError::ColorFormat)),
        "Only ASEError::ColorFormat should be returned"
    );
}

#[test]
fn it_returns_input_data_parse_error_for_oob() {
    // data starting with the correct tag, but ending too early
    let data = b"RGB sahdj";
    let res = ColorValue::try_from(data.as_slice());
    assert!(
        matches!(res.err(), Some(ASEError::InputDataParseError)),
        "Only ASEError::InputDataParseError should be returned"
    );
}
