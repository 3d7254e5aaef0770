use vkrender::scene::material::pack_rgba8;

#[test]
fn pixels_pack_little_endian_row_major() {
    let raw: Vec<u8> = vec![
        1, 2, 3, 4, 5, 6, 7, 8, //
        9, 10, 11, 12, 255, 0, 0, 255,
    ];
    let packed = pack_rgba8(2, 2, &raw);
    assert_eq!(packed, vec![0x04030201u32, 0x08070605, 0x0c0b0a09, 0xff0000ff]);
}

#[test]
fn empty_image() {
    assert!(pack_rgba8(0, 5, &Vec::new()).is_empty());
}
