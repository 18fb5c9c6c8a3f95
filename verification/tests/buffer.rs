use adobe_swatch_exchange::Buffer;

#[test]
fn writes_big_endian_integers() {
    let mut buf = Buffer::with_capacity(6);
    buf.write_u16(0xc001);
    buf.write_u32(0x00010000);
    assert_eq!(buf.into_vec(), vec![0xc0, 0x01, 0x00, 0x01, 0x00, 0x00]);
}

#[test]
fn writes_null_terminated_utf_16() {
    let mut buf = Buffer::with_capacity(10);
    buf.write_null_terminated_utf_16_str("name");
    assert_eq!(buf.into_vec(), vec![0, 110, 0, 97, 0, 109, 0, 101, 0, 0]);
}

#[test]
fn writes_surrogate_pairs_in_utf_16() {
    let mut buf = Buffer::with_capacity(8);
    // U+1F600 encodes as the surrogate pair 0xD83D 0xDE00
    buf.write_null_terminated_utf_16_str("a😀");
    assert_eq!(
        buf.into_vec(),
        vec![0x00, 0x61, 0xd8, 0x3d, 0xde, 0x00, 0, 0]
    );
}

#[test]
fn writes_empty_string_as_terminator_only() {
    let mut buf = Buffer::with_capacity(2);
    buf.write_null_terminated_utf_16_str("");
    assert_eq!(buf.into_vec(), vec![0, 0]);
}

#[test]
fn appends_slices_in_order() {
    let mut buf = Buffer::with_capacity(4);
    buf.write_slice(&[1, 2]);
    buf.write_slice(&[3]);
    assert_eq!(buf.into_vec(), vec![1, 2, 3]);
}
