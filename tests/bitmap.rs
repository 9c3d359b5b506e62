use aire_filters::{
    convert_rgb1010102_to_rgba8888, convert_rgb565_to_rgba8888, copy_image, equalize_plane_squares,
    AheError, AheImplementation, BinDomain, ClaheGridSize,
};

#[test]
fn copy_image_copies_rows_and_keeps_padding() {
    let src: Vec<u8> = (0..30).collect();
    let mut dst = vec![0xEEu8; 2 * 8];
    // 2 rows of 2 pixels with 3 components, source stride 15, destination stride 8
    copy_image(&src, 15, &mut dst, 8, 2, 2, 3);
    assert_eq!(&dst[0..6], &[0, 1, 2, 3, 4, 5]);
    assert_eq!(&dst[6..8], &[0xEE, 0xEE]);
    assert_eq!(&dst[8..14], &[15, 16, 17, 18, 19, 20]);
    assert_eq!(&dst[14..16], &[0xEE, 0xEE]);
}

#[test]
fn copy_image_accepts_unpadded_last_row() {
    let src: Vec<u8> = (0..14).collect();
    let mut dst = vec![0u8; 10];
    // 2 rows of 4 bytes; source stride 10 with 14 bytes, destination stride 6 with 10 bytes
    copy_image(&src, 10, &mut dst, 6, 2, 2, 2);
    assert_eq!(dst, vec![0, 1, 2, 3, 0, 0, 10, 11, 12, 13]);
}

#[test]
fn rgb565_rows_expand_to_rgba() {
    // one row of two pixels, little-endian words 0xF800 (red) and 0x07E0 (green)
    let src: Vec<u8> = vec![0x00, 0xF8, 0xE0, 0x07, 0x99, 0x99];
    let mut dst = vec![0u8; 10];
    convert_rgb565_to_rgba8888(&src, 6, &mut dst, 10, 2, 1);
    assert_eq!(&dst[0..8], &[248, 0, 0, 255, 0, 252, 0, 255]);
    assert_eq!(&dst[8..10], &[0, 0]);
}

#[test]
fn rgb1010102_rows_expand_to_rgba() {
    let v: u32 = (3 << 30) | (1020 << 20) | (400 << 10) | 8;
    let mut src = v.to_le_bytes().to_vec();
    src.extend_from_slice(&0u32.to_le_bytes());
    let mut dst = vec![7u8; 16];
    // two rows of one pixel each
    convert_rgb1010102_to_rgba8888(&src, 4, &mut dst, 8, 1, 2);
    assert_eq!(&dst[0..4], &[2, 100, 255, 192]);
    assert_eq!(&dst[4..8], &[7, 7, 7, 7]);
    assert_eq!(&dst[8..12], &[0, 0, 0, 0]);
}

#[test]
fn squares_equalize_each_tile_alone() {
    // two tiles of width 2: {10, 20} and {30, 40}
    let mut p: Vec<u16> = vec![10, 20, 30, 40];
    let r = equalize_plane_squares(&mut p, 4, 1, ClaheGridSize::new(2, 1), BinDomain::Luma);
    assert_eq!(r, Ok(()));
    assert_eq!(p, vec![0, 255, 0, 255]);
}

#[test]
fn squares_refuse_bad_grids() {
    let mut p: Vec<u16> = vec![1, 2, 3, 4];
    assert_eq!(
        equalize_plane_squares(&mut p, 2, 2, ClaheGridSize::new(0, 1), BinDomain::Luma),
        Err(AheError::ZeroGrid)
    );
    assert_eq!(
        equalize_plane_squares(&mut p, 2, 2, ClaheGridSize::new(1, 3), BinDomain::Luma),
        Err(AheError::GridExceedsImage)
    );
    assert_eq!(p, vec![1, 2, 3, 4]);
}

#[test]
fn implementation_selector() {
    assert_eq!(AheImplementation::try_from_u8(1), Ok(AheImplementation::Ahe));
    assert_eq!(AheImplementation::try_from_u8(2), Ok(AheImplementation::Clahe));
    assert_eq!(AheImplementation::try_from_u8(3), Err(AheError::UnsupportedMode));
    assert!(AheImplementation::Clahe.clips());
    assert!(!AheImplementation::Ahe.clips());
}
