use reminder::ico::encode;

#[test]
fn ico_header_and_directory() {
    let a: &[u8] = &[1, 2, 3];
    let b: &[u8] = &[4, 5];
    let out = encode(&[(16, a), (256, b)]);
    let mut expected: Vec<u8> = vec![0, 0, 1, 0, 2, 0];
    // entry 1: 16x16, no palette, reserved, 1 plane, 32 bpp, 3 bytes at 38
    expected.extend_from_slice(&[16, 16, 0, 0, 1, 0, 32, 0, 3, 0, 0, 0, 38, 0, 0, 0]);
    // entry 2: 256 is written as 0, 2 bytes at 41
    expected.extend_from_slice(&[0, 0, 0, 0, 1, 0, 32, 0, 2, 0, 0, 0, 41, 0, 0, 0]);
    expected.extend_from_slice(&[1, 2, 3, 4, 5]);
    assert_eq!(out, expected);
}

#[test]
fn ico_with_no_entries_is_just_the_header() {
    assert_eq!(encode(&[]), vec![0, 0, 1, 0, 0, 0]);
}

#[test]
fn ico_entry_locates_its_image() {
    let imgs: Vec<Vec<u8>> = vec![vec![10; 5], vec![20; 7], vec![30; 2]];
    let entries: Vec<(u32, &[u8])> =
        vec![(32, &imgs[0][..]), (48, &imgs[1][..]), (300, &imgs[2][..])];
    let out = encode(&entries);
    for (k, img) in imgs.iter().enumerate() {
        let e = 6 + 16 * k;
        let size = u32::from_le_bytes([out[e + 8], out[e + 9], out[e + 10], out[e + 11]]) as usize;
        let off = u32::from_le_bytes([out[e + 12], out[e + 13], out[e + 14], out[e + 15]]) as usize;
        assert_eq!(&out[off..off + size], &img[..]);
    }
    assert_eq!(out[6 + 32], 0);
    assert_eq!(out[6], 32);
}

#[test]
fn ico_entry_bytes_at_their_place() {
    let imgs: Vec<Vec<u8>> = vec![vec![1; 300], vec![2; 70000]];
    let entries: Vec<(u32, &[u8])> = vec![(255, &imgs[0][..]), (256, &imgs[1][..])];
    let out = encode(&entries);
    assert_eq!(&out[0..6], &[0, 0, 1, 0, 2, 0]);
    let off0 = 6 + 32u32;
    let mut e0 = vec![255, 255, 0, 0, 1, 0, 32, 0];
    e0.extend_from_slice(&300u32.to_le_bytes());
    e0.extend_from_slice(&off0.to_le_bytes());
    assert_eq!(&out[6..22], &e0[..]);
    let mut e1 = vec![0, 0, 0, 0, 1, 0, 32, 0];
    e1.extend_from_slice(&70000u32.to_le_bytes());
    e1.extend_from_slice(&(off0 + 300).to_le_bytes());
    assert_eq!(&out[22..38], &e1[..]);
    assert_eq!(out.len(), 38 + 300 + 70000);
}
