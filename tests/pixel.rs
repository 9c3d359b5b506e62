use aire_filters::{
    morph_op_mode_from_java, MorphOpMode, Rgb, Rgb565, Rgba, Rgba1010102, ToRgb565, ToRgba1010102, ToRgba8,
};

#[test]
fn rgba_constructors() {
    let p = Rgba::<u8>::new(1, 2, 3, 4);
    assert_eq!((p.r, p.g, p.b, p.a), (1, 2, 3, 4));
    let q = Rgba::<u8>::from_rgb(9, 8, 7);
    assert_eq!(q.a, 255);
    let rgb = q.to_rgb();
    assert_eq!((rgb.r, rgb.g, rgb.b), (9, 8, 7));
    let c = Rgb::new(5u8, 6u8, 7u8);
    assert_eq!((c.r, c.g, c.b), (5, 6, 7));
}

#[test]
fn rgb565_widens_channels() {
    let p = Rgb565::new(0b10101_110011_01101).to_rgba8();
    assert_eq!((p.r, p.g, p.b, p.a), (0b10101000, 0b11001100, 0b01101000, 255));
    let white = Rgb565::new(0xFFFF).to_rgba8();
    assert_eq!((white.r, white.g, white.b), (248, 252, 248));
}

#[test]
fn rgba_packs_to_565() {
    let p = Rgba::<u8>::new(0xFF, 0x80, 0x0F, 0).to_rgb_565();
    assert_eq!(p.rgb565, (31 << 11) | (32 << 5) | 1);
}

#[test]
fn rgba1010102_keeps_top_bits() {
    let v: u32 = (2 << 30) | (1023 << 20) | (512 << 10) | 4;
    let p = Rgba1010102::new(v).to_rgba8();
    assert_eq!((p.r, p.g, p.b, p.a), (1, 128, 255, 128));
}

#[test]
fn rgba_packs_to_1010102() {
    let p = Rgba::<u8>::new(1, 2, 3, 200).to_rgba1010102();
    assert_eq!(p.rgba, (3 << 30) | (4 << 20) | (8 << 10) | 12);
}

#[test]
fn morph_mode_selector() {
    assert_eq!(morph_op_mode_from_java(0), Ok(MorphOpMode::Rgb));
    assert_eq!(morph_op_mode_from_java(1), Ok(MorphOpMode::Rgba));
    assert_eq!(
        morph_op_mode_from_java(7),
        Err("Value 7 is not supported for op mode in morphology".to_string())
    );
    assert_eq!(
        morph_op_mode_from_java(-120),
        Err("Value -120 is not supported for op mode in morphology".to_string())
    );
}
