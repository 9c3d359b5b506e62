use vstd::prelude::*;

verus! {

/// A pixel with red, green, blue and alpha channels.
#[derive(Clone, Copy, PartialEq, Eq, Debug)]
pub struct Rgba<T> {
    pub r: T,
    pub g: T,
    pub b: T,
    pub a: T,
}

/// A pixel with red, green and blue channels.
#[derive(Clone, Copy, PartialEq, Eq, Debug)]
pub struct Rgb<T> {
    pub r: T,
    pub g: T,
    pub b: T,
}

impl<T> Rgb<T> {
    pub fn new(r: T, g: T, b: T) -> (p: Rgb<T>)
        ensures
            p.r == r,
            p.g == g,
            p.b == b,
    {
        Rgb { r, g, b }
    }
}

impl Rgba<u8> {
    pub fn new(r: u8, g: u8, b: u8, a: u8) -> (p: Rgba<u8>)
        ensures
            p == (Rgba { r, g, b, a }),
    {
        Rgba { r, g, b, a }
    }

    /// An opaque pixel.
    pub fn from_rgb(r: u8, g: u8, b: u8) -> (p: Rgba<u8>)
        ensures
            p == (Rgba { r, g, b, a: 255u8 }),
    {
        Rgba { r, g, b, a: u8::MAX }
    }

    /// Drops the alpha channel.
    pub fn to_rgb(&self) -> (p: Rgb<u8>)
        ensures
            p == (Rgb { r: self.r, g: self.g, b: self.b }),
    {
        Rgb { r: self.r, g: self.g, b: self.b }
    }
}

/// A pixel packed in 16 bits: 5 bits of red (high), 6 of green, 5 of blue (low).
#[derive(Clone, Copy, PartialEq, Eq, Debug)]
pub struct Rgb565 {
    pub rgb565: u16,
}

impl Rgb565 {
    pub fn new(color: u16) -> (p: Rgb565)
        ensures
            p.rgb565 == color,
    {
        Rgb565 { rgb565: color }
    }
}

/// A pixel packed in 32 bits: 10 bits per colour channel from the low bits
/// up (red, green, blue) and 2 bits of alpha on top.
#[derive(Clone, Copy, PartialEq, Eq, Debug)]
pub struct Rgba1010102 {
    pub rgba: u32,
}

impl Rgba1010102 {
    pub fn new(color: u32) -> (p: Rgba1010102)
        ensures
            p.rgba == color,
    {
        Rgba1010102 { rgba: color }
    }
}

pub trait ToRgba8 {
    fn to_rgba8(&self) -> Rgba<u8>;
}

pub trait ToRgb565 {
    fn to_rgb_565(&self) -> Rgb565;
}

pub trait ToRgba1010102 {
    fn to_rgba1010102(&self) -> Rgba1010102;
}

impl ToRgba8 for Rgb565 {
    /// Widens each channel by shifting it to the top of a byte.
    fn to_rgba8(&self) -> (p: Rgba<u8>)
        ensures
            p.r == (self.rgb565 / 2048) * 8,
            p.g == ((self.rgb565 / 32) % 64) * 4,
            p.b == (self.rgb565 % 32) * 8,
            p.a == 255,
    {
        let v = self.rgb565;
        let red8 = ((v & 0b1111100000000000) >> 8) as u8;
        let green8 = ((v & 0b11111100000) >> 3) as u8;
        let blue8 = ((v & 0b11111) << 3) as u8;
        assert(((v & 0b1111100000000000) >> 8) as u8 == (v / 2048) * 8) by (bit_vector);
        assert(((v & 0b11111100000) >> 3) as u8 == ((v / 32) % 64) * 4) by (bit_vector);
        assert(((v & 0b11111) << 3) as u8 == (v % 32) * 8) by (bit_vector);
        Rgba::<u8>::new(red8, green8, blue8, u8::MAX)
    }
}

impl ToRgba8 for Rgba1010102 {
    /// Keeps the top 8 of each 10-bit channel and spreads the 2 alpha bits
    /// to the top of a byte.
    fn to_rgba8(&self) -> (p: Rgba<u8>)
        ensures
            p.r == (self.rgba % 1024) / 4,
            p.g == ((self.rgba / 1024) % 1024) / 4,
            p.b == ((self.rgba / 1048576) % 1024) / 4,
            p.a == (self.rgba / 1073741824) * 64,
    {
        let v = self.rgba;
        assert(1u32 << 10u32 == 1024) by (bit_vector);
        let mask = (1u32 << 10u32) - 1u32;
        let r = v & mask;
        let g = (v >> 10) & mask;
        let b = (v >> 20) & mask;
        let a = (v >> 30) & 0b00000011;
        assert(((v & 1023) >> 2) as u8 == (v % 1024) / 4) by (bit_vector);
        assert((((v >> 10) & 1023) >> 2) as u8 == ((v / 1024) % 1024) / 4) by (bit_vector);
        assert((((v >> 20) & 1023) >> 2) as u8 == ((v / 1048576) % 1024) / 4) by (bit_vector);
        assert((((v >> 30) & 3) << 6) as u8 == (v / 1073741824) * 64) by (bit_vector);
        assert((v & 1023) >> 2 <= 255 && ((v >> 10) & 1023) >> 2 <= 255 && ((v >> 20) & 1023) >> 2 <= 255 && ((v
            >> 30) & 3) << 6 <= 255) by (bit_vector);
        Rgba::<u8>::new((r >> 2) as u8, (g >> 2) as u8, (b >> 2) as u8, (a << 6) as u8)
    }
}

impl ToRgb565 for Rgba<u8> {
    /// Keeps the top 5, 6 and 5 bits of red, green and blue.
    fn to_rgb_565(&self) -> (p: Rgb565)
        ensures
            p.rgb565 == (self.r / 8) * 2048 + (self.g / 4) * 32 + self.b / 8,
    {
        let (r, g, b) = (self.r, self.g, self.b);
        let red565 = ((r as u16) >> 3) << 11;
        let green565 = ((g as u16) >> 2) << 5;
        let blue565 = (b as u16) >> 3;
        assert(((((r as u16) >> 3) << 11) | (((g as u16) >> 2) << 5) | ((b as u16) >> 3)) == (r / 8) * 2048 + (g
            / 4) * 32 + b / 8) by (bit_vector);
        Rgb565 { rgb565: red565 | green565 | blue565 }
    }
}

impl ToRgba1010102 for Rgba<u8> {
    /// Packs each colour byte into 10 bits (times 4) and the top 2 alpha
    /// bits on top: blue in the low bits, then green, then red.
    fn to_rgba1010102(&self) -> (p: Rgba1010102)
        ensures
            p.rgba == (self.a / 64) * 1073741824 + (self.r * 4) * 1048576 + (self.g * 4) * 1024 + self.b * 4,
    {
        let (rr, gg, bb, aa) = (self.r, self.g, self.b, self.a);
        let r = (rr as u32) << 2;
        let g = (gg as u32) << 2;
        let b = (bb as u32) << 2;
        let a = (aa as u32) >> 6;
        assert((((aa as u32) >> 6) << 30) | (((rr as u32) << 2) << 20) | (((gg as u32) << 2) << 10) | ((bb as u32)
            << 2) == (aa / 64) * 1073741824 + (rr * 4) * 1048576 + (gg * 4) * 1024 + bb * 4) by (bit_vector);
        let rgba1010102 = (a << 30) | (r << 20) | (g << 10) | b;
        Rgba1010102 { rgba: rgba1010102 }
    }
}

} // verus!
