use reminder::png::{adler32, crc32, encode_rgba, push_chunk, zlib_stored};

#[test]
fn crc32_of_iend_is_the_well_known_value() {
    assert_eq!(crc32(b"IEND"), 0xAE42_6082);
}

#[test]
fn crc32_check_value() {
    assert_eq!(crc32(b"123456789"), 0xCBF4_3926);
    assert_eq!(crc32(b""), 0);
}

#[test]
fn adler32_of_wikipedia() {
    assert_eq!(adler32(b"Wikipedia"), 0x11E6_0398);
    assert_eq!(adler32(b""), 1);
}

#[test]
fn zlib_stored_wraps_one_block() {
    assert_eq!(
        zlib_stored(b"hello"),
        vec![120, 1, 1, 5, 0, 250, 255, 104, 101, 108, 108, 111, 6, 44, 2, 21]
    );
}

#[test]
fn zlib_stored_of_nothing_is_one_empty_final_block() {
    assert_eq!(zlib_stored(b""), vec![120, 1, 1, 0, 0, 255, 255, 0, 0, 0, 1]);
}

#[test]
fn zlib_stored_splits_long_input_into_blocks() {
    let data = vec![7u8; 0xFFFF + 3];
    let out = zlib_stored(&data);
    // header, first block (not final), second block (final), checksum
    assert_eq!(out.len(), 2 + (5 + 0xFFFF) + (5 + 3) + 4);
    assert_eq!(&out[2..7], &[0, 0xFF, 0xFF, 0x00, 0x00]);
    let second = 2 + 5 + 0xFFFF;
    assert_eq!(&out[second..second + 5], &[1, 3, 0, 0xFC, 0xFF]);
    assert_eq!(&out[second + 5..second + 8], &[7, 7, 7]);
}

#[test]
fn push_chunk_appends_length_kind_payload_and_crc() {
    let mut out = vec![9u8];
    push_chunk(&mut out, b"IEND", &[]);
    assert_eq!(out, vec![9, 0, 0, 0, 0, 73, 69, 78, 68, 174, 66, 96, 130]);
}

#[test]
fn encode_one_red_pixel() {
    let png = encode_rgba(1, 1, &[255, 0, 0, 255]);
    let expected: Vec<u8> = vec![
        137, 80, 78, 71, 13, 10, 26, 10, 0, 0, 0, 13, 73, 72, 68, 82, 0, 0, 0, 1, 0, 0, 0, 1, 8,
        6, 0, 0, 0, 31, 21, 196, 137, 0, 0, 0, 16, 73, 68, 65, 84, 120, 1, 1, 5, 0, 250, 255, 0,
        255, 0, 0, 255, 5, 0, 1, 255, 250, 92, 136, 209, 0, 0, 0, 0, 73, 69, 78, 68, 174, 66, 96,
        130,
    ];
    assert_eq!(png, expected);
}

#[test]
fn encoded_png_has_signature_header_and_end() {
    let pixels: Vec<u8> = (0..8u8).map(|i| i + 1).collect();
    let png = encode_rgba(2, 1, &pixels);
    assert_eq!(png.len(), 77);
    assert_eq!(&png[..8], &[0x89, b'P', b'N', b'G', 13, 10, 26, 10]);
    assert_eq!(&png[12..16], b"IHDR");
    assert_eq!(&png[16..24], &[0, 0, 0, 2, 0, 0, 0, 1]);
    assert_eq!(&png[png.len() - 8..png.len() - 4], b"IEND");
    // The stored block carries the scanline: filter byte 0, then the pixels.
    let idat = 8 + 25;
    assert_eq!(&png[idat + 4..idat + 8], b"IDAT");
    let block = idat + 8 + 2 + 5;
    assert_eq!(png[block], 0);
    assert_eq!(&png[block + 1..block + 9], &pixels[..]);
}
