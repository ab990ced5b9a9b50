use spritezip::bytes::{
    get_byte_of_u64, get_png_dimensions, get_u64_mask_of_byte, u64_to_u8_buf_little_endian,
    u8_buf_to_u32_big_endian, u8_buf_to_u64_little_endian, u8_stream_to_u32_big_endian,
};

#[test]
fn byte_of_u64_counts_from_least_significant() {
    let v: u64 = 0x1122_3344_5566_7788;
    assert_eq!(get_byte_of_u64(v, 0), 0x88);
    assert_eq!(get_byte_of_u64(v, 3), 0x55);
    assert_eq!(get_byte_of_u64(v, 7), 0x11);
}

#[test]
fn mask_of_byte_places_the_byte() {
    assert_eq!(get_u64_mask_of_byte(0xAB, 0), 0xAB);
    assert_eq!(get_u64_mask_of_byte(0xAB, 2), 0x00AB_0000);
    assert_eq!(get_u64_mask_of_byte(0xFF, 7), 0xFF00_0000_0000_0000);
}

#[test]
fn u64_little_endian_bytes() {
    assert_eq!(
        u64_to_u8_buf_little_endian(0x0102_0304_0506_0708),
        [8, 7, 6, 5, 4, 3, 2, 1]
    );
    assert_eq!(u64_to_u8_buf_little_endian(0), [0; 8]);
    assert_eq!(u64_to_u8_buf_little_endian(u64::MAX), [0xFF; 8]);
}

#[test]
fn u64_little_endian_round_trip() {
    for v in [0u64, 1, 255, 256, 0xDEAD_BEEF, u64::MAX, 1 << 63] {
        let buf = u64_to_u8_buf_little_endian(v);
        assert_eq!(u8_buf_to_u64_little_endian(&buf), v);
    }
    assert_eq!(u8_buf_to_u64_little_endian(&[1, 0, 0, 0, 0, 0, 0, 0]), 1);
    assert_eq!(u8_buf_to_u64_little_endian(&[0, 1, 0, 0, 0, 0, 0, 0]), 256);
}

#[test]
fn u32_big_endian() {
    assert_eq!(u8_buf_to_u32_big_endian(&[0x12, 0x34, 0x56, 0x78]), 0x1234_5678);
    assert_eq!(u8_buf_to_u32_big_endian(&[0, 0, 0, 13]), 13);
}

#[test]
fn u32_big_endian_from_stream() {
    let stream = [0u8, 0, 1, 0, 0xFF, 0xFF, 0xFF, 0xFF, 7];
    let mut pos = 0usize;
    assert_eq!(u8_stream_to_u32_big_endian(&stream, &mut pos), Some(256));
    assert_eq!(pos, 4);
    assert_eq!(u8_stream_to_u32_big_endian(&stream, &mut pos), Some(u32::MAX));
    assert_eq!(pos, 8);
    assert_eq!(u8_stream_to_u32_big_endian(&stream, &mut pos), None);
    assert_eq!(pos, 8);
}

fn png_header(width: u32, height: u32) -> Vec<u8> {
    let mut v = vec![0x89, 0x50, 0x4E, 0x47, 0x0D, 0x0A, 0x1A, 0x0A, 0, 0, 0, 13, 73, 72, 68, 82];
    v.extend_from_slice(&width.to_be_bytes());
    v.extend_from_slice(&height.to_be_bytes());
    v
}

#[test]
fn png_dimensions_read_from_header() {
    assert_eq!(get_png_dimensions(&png_header(127, 53)), Ok((127, 53)));
    assert_eq!(get_png_dimensions(&png_header(1, 65536)), Ok((1, 65536)));
}

#[test]
fn png_dimensions_reject_other_files() {
    let mut h = png_header(10, 10);
    h[1] = b'Q';
    assert_eq!(get_png_dimensions(&h), Err("Incorrect PNG header"));
    let mut h = png_header(10, 10);
    h[12] = b'X';
    assert_eq!(get_png_dimensions(&h), Err("Incorrect PNG header"));
}

#[test]
fn png_dimensions_reject_truncated_header() {
    let h = png_header(10, 10);
    assert!(get_png_dimensions(&h[..23]).is_err());
    assert!(get_png_dimensions(&[]).is_err());
}
