use vstd::prelude::*;
use vstd::arithmetic::div_mod::{
    lemma_fundamental_div_mod, lemma_fundamental_div_mod_converse_div, lemma_fundamental_div_mod_converse_mod,
};
use crate::pixel::{Rgb565, Rgba1010102, ToRgba8};

verus! {

/// Whether byte `i` of a buffer with rows every `stride` bytes lies in the
/// first `row_len` bytes of one of the first `height` rows.
pub open spec fn in_rows(i: int, stride: int, row_len: int, height: int) -> bool {
    stride > 0 && i / stride < height && i % stride < row_len
}

/// `dst` with the first `row_len` bytes of each of `height` rows taken from
/// the same place in the rows of `src`.
pub open spec fn copied_rows(src: Seq<u8>, ss: int, dst: Seq<u8>, ds: int, row_len: int, height: int) -> Seq<u8> {
    Seq::new(
        dst.len(),
        |i: int|
            if in_rows(i, ds, row_len, height) {
                src[(i / ds) * ss + i % ds]
            } else {
                dst[i]
            },
    )
}

/// Channel `c` (red, green, blue, alpha) of a 16-bit 5-6-5 pixel widened to bytes.
pub open spec fn unpack_565(v: u16, c: int) -> u8 {
    if c == 0 {
        ((v / 2048) * 8) as u8
    } else if c == 1 {
        (((v / 32) % 64) * 4) as u8
    } else if c == 2 {
        ((v % 32) * 8) as u8
    } else {
        255
    }
}

/// Channel `c` of a 10-10-10-2 pixel cut to bytes.
pub open spec fn unpack_1010102(v: u32, c: int) -> u8 {
    if c == 0 {
        ((v % 1024) / 4) as u8
    } else if c == 1 {
        (((v / 1024) % 1024) / 4) as u8
    } else if c == 2 {
        (((v / 1048576) % 1024) / 4) as u8
    } else {
        ((v / 1073741824) * 64) as u8
    }
}

/// The little-endian 16-bit word at `o`.
pub open spec fn word16(s: Seq<u8>, o: int) -> u16 {
    (s[o] + s[o + 1] * 256) as u16
}

/// The little-endian 32-bit word at `o`.
pub open spec fn word32(s: Seq<u8>, o: int) -> u32 {
    (s[o] + s[o + 1] * 256 + s[o + 2] * 65536 + s[o + 3] * 16777216) as u32
}

/// A packed pixel layout of a source buffer.
#[derive(Clone, Copy, PartialEq, Eq, Debug)]
pub enum PackedFormat {
    /// 16-bit 5-6-5 words, little-endian.
    Rgb565,
    /// 32-bit 10-10-10-2 words, little-endian.
    Rgba1010102,
}

pub open spec fn packed_bytes(f: PackedFormat) -> int {
    match f {
        PackedFormat::Rgb565 => 2,
        PackedFormat::Rgba1010102 => 4,
    }
}

/// Channel `c` (red, green, blue, alpha) of the packed pixel at byte `o`.
pub open spec fn packed_channel(f: PackedFormat, s: Seq<u8>, o: int, c: int) -> u8 {
    match f {
        PackedFormat::Rgb565 => unpack_565(word16(s, o), c),
        PackedFormat::Rgba1010102 => unpack_1010102(word32(s, o), c),
    }
}

/// `dst` with each of the `width * height` pixels written as RGBA bytes from
/// the packed pixels of `src`.
pub open spec fn unpacked_rows(
    f: PackedFormat,
    src: Seq<u8>,
    ss: int,
    dst: Seq<u8>,
    ds: int,
    width: int,
    height: int,
) -> Seq<u8> {
    Seq::new(
        dst.len(),
        |i: int|
            if in_rows(i, ds, 4 * width, height) {
                packed_channel(f, src, (i / ds) * ss + ((i % ds) / 4) * packed_bytes(f), (i % ds) % 4)
            } else {
                dst[i]
            },
    )
}

fn channel_at(f: PackedFormat, source: &[u8], o: usize, c: usize) -> (r: u8)
    requires
        o + packed_bytes(f) <= source@.len(),
        c < 4,
    ensures
        r == packed_channel(f, source@, o as int, c as int),
{
    let p = match f {
        PackedFormat::Rgb565 => {
            let v: u16 = source[o] as u16 + (source[o + 1] as u16) * 256;
            Rgb565::new(v).to_rgba8()
        },
        PackedFormat::Rgba1010102 => {
            let v: u32 = source[o] as u32 + (source[o + 1] as u32) * 256 + (source[o + 2] as u32) * 65536 + (
            source[o + 3] as u32) * 16777216;
            Rgba1010102::new(v).to_rgba8()
        },
    };
    if c == 0 {
        p.r
    } else if c == 1 {
        p.g
    } else if c == 2 {
        p.b
    } else {
        p.a
    }
}

proof fn lemma_row_pos(p: int, stride: int, y: int, j: int)
    requires
        0 <= j < stride,
        p == y * stride + j,
    ensures
        p / stride == y,
        p % stride == j,
{
    lemma_fundamental_div_mod_converse_div(p, stride, y, j);
    lemma_fundamental_div_mod_converse_mod(p, stride, y, j);
}

proof fn lemma_row_bounds(y: int, stride: int, row_len: int, height: int, len: int)
    requires
        0 <= y < height,
        0 <= row_len <= stride,
        (height - 1) * stride + row_len <= len,
    ensures
        0 <= y * stride,
        y * stride + row_len <= len,
{
    assert(y * stride <= (height - 1) * stride) by (nonlinear_arith)
        requires y <= height - 1, stride >= 0;
    assert(0 <= y * stride) by (nonlinear_arith)
        requires y >= 0, stride >= 0;
}

/// Copies `width * components_count` bytes of each of `height` rows.
pub fn copy_image(
    source: &[u8],
    src_stride: u32,
    dst: &mut [u8],
    dst_stride: u32,
    width: u32,
    height: u32,
    components_count: u32,
)
    requires
        width as int * components_count as int <= src_stride,
        width as int * components_count as int <= dst_stride,
        (height - 1) * src_stride + width * components_count <= source@.len(),
        (height - 1) * dst_stride + width * components_count <= old(dst)@.len(),
    ensures
        final(dst)@ == copied_rows(
            source@,
            src_stride as int,
            old(dst)@,
            dst_stride as int,
            width as int * components_count as int,
            height as int,
        ),
{
    let ghost s = source@;
    let ghost d0 = dst@;
    let ghost rl = width as int * components_count as int;
    let row_len: usize = width as usize * components_count as usize;
    let ss = src_stride as usize;
    let ds = dst_stride as usize;
    proof {
        assert(s.len() <= usize::MAX) by {
            let l = source.len();
        }
        assert(d0.len() <= usize::MAX) by {
            let l = dst.len();
        }
    }
    let mut y: usize = 0;
    while y < height as usize
        invariant
            s == source@,
            d0 == old(dst)@,
            dst@.len() == d0.len(),
            rl == row_len,
            row_len <= ss,
            row_len <= ds,
            ss == src_stride,
            ds == dst_stride,
            (height - 1) * ss + rl <= s.len(),
            (height - 1) * ds + rl <= d0.len(),
            s.len() <= usize::MAX,
            d0.len() <= usize::MAX,
            y <= height,
            forall|i: int|
                0 <= i < d0.len() ==> dst@[i] == if in_rows(i, ds as int, rl, y as int) {
                    s[(i / (ds as int)) * ss + i % (ds as int)]
                } else {
                    d0[i]
                },
        decreases height - y,
    {
        let mut j: usize = 0;
        while j < row_len
            invariant
                s == source@,
                d0 == old(dst)@,
                dst@.len() == d0.len(),
                rl == row_len,
                row_len <= ss,
                row_len <= ds,
                ss == src_stride,
                ds == dst_stride,
                (height - 1) * ss + rl <= s.len(),
                (height - 1) * ds + rl <= d0.len(),
                s.len() <= usize::MAX,
                d0.len() <= usize::MAX,
                y < height,
                j <= row_len,
                forall|i: int|
                    0 <= i < d0.len() ==> dst@[i] == if in_rows(i, ds as int, rl, y as int) || (ds > 0 && i / (
                    ds as int) == y && (i % (ds as int)) < (j as int)) {
                        s[(i / (ds as int)) * ss + i % (ds as int)]
                    } else {
                        d0[i]
                    },
            decreases row_len - j,
        {
            proof {
                lemma_row_bounds(y as int, ss as int, rl, height as int, s.len() as int);
                lemma_row_bounds(y as int, ds as int, rl, height as int, d0.len() as int);
                lemma_row_pos((y * ds + j) as int, ds as int, y as int, j as int);
            }
            let v = source[y * ss + j];
            let p = y * ds + j;
            let ghost prev = dst@;
            dst[p] = v;
            proof {
                assert forall|i: int| 0 <= i < d0.len() implies #[trigger] dst@[i] == if in_rows(
                    i,
                    ds as int,
                    rl,
                    y as int,
                ) || (ds > 0 && i / (ds as int) == y && (i % (ds as int)) < (j as int) + 1) {
                    s[(i / (ds as int)) * ss + i % (ds as int)]
                } else {
                    d0[i]
                } by {
                    lemma_fundamental_div_mod(i, ds as int);
                    if i != p {
                        assert(dst@[i] == prev[i]);
                        if ds > 0 && i / (ds as int) == y && i % (ds as int) == j {
                            assert(i == (ds as int) * y + j);
                            assert((ds as int) * y == y * (ds as int)) by (nonlinear_arith);
                        }
                    }
                }
            }
            j += 1;
        }
        y += 1;
    }
    assert(dst@ =~= copied_rows(s, ss as int, d0, ds as int, rl, height as int));
}

/// Writes the packed pixels of `source` as RGBA bytes into `dst`, row by row.
pub fn unpack_to_rgba8888(
    f: PackedFormat,
    source: &[u8],
    src_stride: u32,
    dst: &mut [u8],
    dst_stride: u32,
    width: u32,
    height: u32,
)
    requires
        width as int * packed_bytes(f) <= src_stride,
        width as int * 4 <= dst_stride,
        (height - 1) * src_stride + width * packed_bytes(f) <= source@.len(),
        (height - 1) * dst_stride + width * 4 <= old(dst)@.len(),
    ensures
        final(dst)@ == unpacked_rows(
            f,
            source@,
            src_stride as int,
            old(dst)@,
            dst_stride as int,
            width as int,
            height as int,
        ),
{
    let ghost s = source@;
    let ghost d0 = dst@;
    let ghost rl = 4 * width as int;
    let row_len: usize = 4 * width as usize;
    let bpp: usize = match f {
        PackedFormat::Rgb565 => 2,
        PackedFormat::Rgba1010102 => 4,
    };
    let ss = src_stride as usize;
    let ds = dst_stride as usize;
    proof {
        assert(s.len() <= usize::MAX) by {
            let l = source.len();
        }
        assert(d0.len() <= usize::MAX) by {
            let l = dst.len();
        }
    }
    let mut y: usize = 0;
    while y < height as usize
        invariant
            s == source@,
            d0 == old(dst)@,
            dst@.len() == d0.len(),
            rl == row_len,
            row_len == 4 * width,
            bpp == packed_bytes(f),
            width * bpp <= ss,
            row_len <= ds,
            ss == src_stride,
            ds == dst_stride,
            (height - 1) * ss + width * bpp <= s.len(),
            (height - 1) * ds + rl <= d0.len(),
            s.len() <= usize::MAX,
            d0.len() <= usize::MAX,
            y <= height,
            forall|i: int|
                0 <= i < d0.len() ==> dst@[i] == if in_rows(i, ds as int, rl, y as int) {
                    packed_channel(f, s, (i / (ds as int)) * ss + ((i % (ds as int)) / 4) * bpp, (i % (ds as int)) % 4)
                } else {
                    d0[i]
                },
        decreases height - y,
    {
        let mut j: usize = 0;
        while j < row_len
            invariant
                s == source@,
                d0 == old(dst)@,
                dst@.len() == d0.len(),
                rl == row_len,
                row_len == 4 * width,
                bpp == packed_bytes(f),
                width * bpp <= ss,
                row_len <= ds,
                ss == src_stride,
                ds == dst_stride,
                (height - 1) * ss + width * bpp <= s.len(),
                (height - 1) * ds + rl <= d0.len(),
                s.len() <= usize::MAX,
                d0.len() <= usize::MAX,
                y < height,
                j <= row_len,
                forall|i: int|
                    0 <= i < d0.len() ==> dst@[i] == if in_rows(i, ds as int, rl, y as int) || (ds > 0 && i / (
                    ds as int) == y && (i % (ds as int)) < (j as int)) {
                        packed_channel(
                            f,
                            s,
                            (i / (ds as int)) * ss + ((i % (ds as int)) / 4) * bpp,
                            (i % (ds as int)) % 4,
                        )
                    } else {
                        d0[i]
                    },
            decreases row_len - j,
        {
            let x = j / 4;
            let c = j % 4;
            proof {
                assert(x * bpp + bpp <= width * bpp) by (nonlinear_arith)
                    requires x < width, bpp >= 0;
                assert(0 <= x * bpp) by (nonlinear_arith)
                    requires bpp >= 0, x >= 0;
                lemma_row_bounds(y as int, ss as int, width * bpp, height as int, s.len() as int);
                lemma_row_bounds(y as int, ds as int, rl, height as int, d0.len() as int);
                lemma_row_pos((y * ds + j) as int, ds as int, y as int, j as int);
            }
            let v = channel_at(f, source, y * ss + x * bpp, c);
            let p = y * ds + j;
            let ghost prev = dst@;
            dst[p] = v;
            proof {
                assert forall|i: int| 0 <= i < d0.len() implies #[trigger] dst@[i] == if in_rows(
                    i,
                    ds as int,
                    rl,
                    y as int,
                ) || (ds > 0 && i / (ds as int) == y && (i % (ds as int)) < (j as int) + 1) {
                    packed_channel(f, s, (i / (ds as int)) * ss + ((i % (ds as int)) / 4) * bpp, (i % (ds as int)) % 4)
                } else {
                    d0[i]
                } by {
                    lemma_fundamental_div_mod(i, ds as int);
                    if i != p {
                        assert(dst@[i] == prev[i]);
                        if ds > 0 && i / (ds as int) == y && i % (ds as int) == j {
                            assert(i == (ds as int) * y + j);
                            assert((ds as int) * y == y * (ds as int)) by (nonlinear_arith);
                        }
                    }
                }
            }
            j += 1;
        }
        y += 1;
    }
    assert(dst@ =~= unpacked_rows(f, s, ss as int, d0, ds as int, width as int, height as int));
}

/// Expands 16-bit 5-6-5 pixels (little-endian) into RGBA bytes.
pub fn convert_rgb565_to_rgba8888(
    source: &[u8],
    src_stride: u32,
    dst: &mut [u8],
    dst_stride: u32,
    width: u32,
    height: u32,
)
    requires
        width as int * 2 <= src_stride,
        width as int * 4 <= dst_stride,
        (height - 1) * src_stride + width * 2 <= source@.len(),
        (height - 1) * dst_stride + width * 4 <= old(dst)@.len(),
    ensures
        final(dst)@ == unpacked_rows(
            PackedFormat::Rgb565,
            source@,
            src_stride as int,
            old(dst)@,
            dst_stride as int,
            width as int,
            height as int,
        ),
{
    unpack_to_rgba8888(PackedFormat::Rgb565, source, src_stride, dst, dst_stride, width, height);
}

/// Expands 32-bit 10-10-10-2 pixels (little-endian) into RGBA bytes.
pub fn convert_rgb1010102_to_rgba8888(
    source: &[u8],
    src_stride: u32,
    dst: &mut [u8],
    dst_stride: u32,
    width: u32,
    height: u32,
)
    requires
        width as int * 4 <= src_stride,
        width as int * 4 <= dst_stride,
        (height - 1) * src_stride + width * 4 <= source@.len(),
        (height - 1) * dst_stride + width * 4 <= old(dst)@.len(),
    ensures
        final(dst)@ == unpacked_rows(
            PackedFormat::Rgba1010102,
            source@,
            src_stride as int,
            old(dst)@,
            dst_stride as int,
            width as int,
            height as int,
        ),
{
    unpack_to_rgba8888(PackedFormat::Rgba1010102, source, src_stride, dst, dst_stride, width, height);
}

} // verus!
