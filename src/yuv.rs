use vstd::prelude::*;
use vstd::arithmetic::div_mod::{lemma_fundamental_div_mod, lemma_div_is_ordered};
use crate::engine::{equalize_plane, equalize_plane_global, equalized_sample, global_sample, AheError};
use crate::grid::{grid_fits, ClaheGridSize};
use crate::histogram::BinDomain;
use yuvutils_rs::{
    rgb_to_yuv444, rgba_to_yuv444, yuv444_alpha_to_rgba, yuv444_to_rgb, YuvChromaSubsampling,
    YuvConversionMode, YuvError, YuvPlanarImage, YuvPlanarImageMut, YuvPlanarImageWithAlpha, YuvRange,
    YuvStandardMatrix,
};

verus! {

/// The error of yuvutils_rs conversions, carried through opaque.
#[verifier::external_type_specification]
#[verifier::external_body]
pub struct ExYuvError(YuvError);

/// Whether a packed buffer holds 3 (RGB) or 4 (RGBA) bytes per pixel.
#[derive(Clone, Copy, PartialEq, Eq, Debug)]
pub enum EqualizeHistogramChannels {
    Channels3,
    Channels4,
}

impl EqualizeHistogramChannels {
    pub open spec fn count(self) -> int {
        match self {
            EqualizeHistogramChannels::Channels3 => 3,
            EqualizeHistogramChannels::Channels4 => 4,
        }
    }

    /// Reads a selector: 0 is RGB, 1 is RGBA.
    pub fn try_from_u8(value: u8) -> (r: Result<EqualizeHistogramChannels, AheError>)
        ensures
            value == 0 ==> r == Ok::<EqualizeHistogramChannels, AheError>(EqualizeHistogramChannels::Channels3),
            value == 1 ==> r == Ok::<EqualizeHistogramChannels, AheError>(EqualizeHistogramChannels::Channels4),
            value > 1 ==> r == Err::<EqualizeHistogramChannels, AheError>(AheError::UnsupportedChannels),
    {
        match value {
            0 => Ok(EqualizeHistogramChannels::Channels3),
            1 => Ok(EqualizeHistogramChannels::Channels4),
            _ => Err(AheError::UnsupportedChannels),
        }
    }
}

/// How the luma plane is equalized.
#[derive(Clone, Copy, PartialEq, Eq, Debug)]
pub enum Equalization {
    /// One histogram for the whole image.
    Global,
    /// One table per tile of `grid`, blended bilinearly; contrast limited
    /// when `clip`, with the threshold `milli` in thousandths.
    Adaptive { grid: ClaheGridSize, milli: u32, clip: bool },
}

/// The three full-resolution planes of a YUV 4:4:4 image.
pub struct YuvPlanes {
    pub y: Vec<u8>,
    pub u: Vec<u8>,
    pub v: Vec<u8>,
}

/// Relies on yuvutils_rs::rgb_to_yuv444 (full range, BT.709) filling planes
/// allocated by `YuvPlanarImageMut::alloc` at `width * height` samples each.
/// The call checks sizes before it converts (`check_rgba_destination`,
/// `check_constraints`); with the buffer held here only a zero dimension fails.
/// Which samples it computes depends on the CPU's features, so nothing is
/// promised of their values.
#[verifier::external_body]
fn rgb_to_planes(rgb: &[u8], stride: u32, width: u32, height: u32) -> (r: Result<YuvPlanes, YuvError>)
    requires
        stride >= width * 3,
        rgb@.len() >= stride * height,
    ensures
        width > 0 && height > 0 ==> r is Ok,
        width == 0 || height == 0 ==> r is Err,
        r is Ok ==> r->Ok_0.y@.len() == width * height && r->Ok_0.u@.len() == width * height && r->Ok_0.v@.len()
            == width * height,
{
    let mut image = YuvPlanarImageMut::<u8>::alloc(width, height, YuvChromaSubsampling::Yuv444);
    let mode = YuvConversionMode::Balanced;
    rgb_to_yuv444(&mut image, rgb, stride, YuvRange::Full, YuvStandardMatrix::Bt709, mode)?;
    let (y, u, v) = (image.y_plane.borrow(), image.u_plane.borrow(), image.v_plane.borrow());
    Ok(YuvPlanes { y: y.to_vec(), u: u.to_vec(), v: v.to_vec() })
}

/// Relies on yuvutils_rs::rgba_to_yuv444 (full range, BT.709) filling planes
/// allocated by `YuvPlanarImageMut::alloc` at `width * height` samples each.
/// The call checks sizes before it converts; with the buffer held here only a
/// zero dimension fails. The sample values depend on the CPU's features.
#[verifier::external_body]
fn rgba_to_planes(rgba: &[u8], stride: u32, width: u32, height: u32) -> (r: Result<YuvPlanes, YuvError>)
    requires
        stride >= width * 4,
        rgba@.len() >= stride * height,
    ensures
        width > 0 && height > 0 ==> r is Ok,
        width == 0 || height == 0 ==> r is Err,
        r is Ok ==> r->Ok_0.y@.len() == width * height && r->Ok_0.u@.len() == width * height && r->Ok_0.v@.len()
            == width * height,
{
    let mut image = YuvPlanarImageMut::<u8>::alloc(width, height, YuvChromaSubsampling::Yuv444);
    let mode = YuvConversionMode::Balanced;
    rgba_to_yuv444(&mut image, rgba, stride, YuvRange::Full, YuvStandardMatrix::Bt709, mode)?;
    let (y, u, v) = (image.y_plane.borrow(), image.u_plane.borrow(), image.v_plane.borrow());
    Ok(YuvPlanes { y: y.to_vec(), u: u.to_vec(), v: v.to_vec() })
}

/// Relies on yuvutils_rs::yuv444_to_rgb (full range, BT.709) writing packed
/// RGB pixels into `dst`. It checks sizes before writing anything, so a
/// refusal leaves `dst` as it was; with the sizes held here only a zero
/// dimension is refused. The written values depend on the CPU's features.
#[verifier::external_body]
fn planes_to_rgb(planes: &YuvPlanes, dst: &mut [u8], stride: u32, width: u32, height: u32) -> (r: Result<(), YuvError>)
    requires
        stride >= width * 3,
        old(dst)@.len() >= stride * height,
        planes.y@.len() == width * height,
        planes.u@.len() == width * height,
        planes.v@.len() == width * height,
    ensures
        final(dst)@.len() == old(dst)@.len(),
        width > 0 && height > 0 ==> r is Ok,
        width == 0 || height == 0 ==> r is Err,
        r is Err ==> final(dst)@ == old(dst)@,
{
    let image = YuvPlanarImage {
        y_plane: planes.y.as_slice(),
        y_stride: width,
        u_plane: planes.u.as_slice(),
        u_stride: width,
        v_plane: planes.v.as_slice(),
        v_stride: width,
        width,
        height,
    };
    yuv444_to_rgb(&image, dst, stride, YuvRange::Full, YuvStandardMatrix::Bt709)
}

/// Relies on yuvutils_rs::yuv444_alpha_to_rgba (full range, BT.709, alpha
/// not premultiplied) writing packed RGBA pixels into `dst`. It checks sizes
/// before writing anything, so a refusal leaves `dst` as it was; with the
/// sizes held here only a zero dimension is refused.
#[verifier::external_body]
fn planes_to_rgba(
    planes: &YuvPlanes,
    alpha: &[u8],
    dst: &mut [u8],
    stride: u32,
    width: u32,
    height: u32,
) -> (r: Result<(), YuvError>)
    requires
        stride >= width * 4,
        old(dst)@.len() >= stride * height,
        planes.y@.len() == width * height,
        planes.u@.len() == width * height,
        planes.v@.len() == width * height,
        alpha@.len() == width * height,
    ensures
        final(dst)@.len() == old(dst)@.len(),
        width > 0 && height > 0 ==> r is Ok,
        width == 0 || height == 0 ==> r is Err,
        r is Err ==> final(dst)@ == old(dst)@,
{
    let image = YuvPlanarImageWithAlpha {
        y_plane: planes.y.as_slice(),
        y_stride: width,
        u_plane: planes.u.as_slice(),
        u_stride: width,
        v_plane: planes.v.as_slice(),
        v_stride: width,
        a_plane: alpha,
        a_stride: width,
        width,
        height,
    };
    yuv444_alpha_to_rgba(&image, dst, stride, YuvRange::Full, YuvStandardMatrix::Bt709, false)
}

pub open spec fn widen(s: Seq<u8>) -> Seq<u16> {
    s.map_values(|b: u8| b as u16)
}

/// The luma plane after equalization.
pub open spec fn equalized_luma(y: Seq<u8>, width: int, height: int, method: Equalization) -> Seq<u8> {
    Seq::new(
        y.len(),
        |k: int|
            match method {
                Equalization::Global => global_sample(widen(y), width, height, BinDomain::Luma, k) as u8,
                Equalization::Adaptive { grid, milli, clip } => equalized_sample(
                    widen(y),
                    width,
                    height,
                    grid,
                    BinDomain::Luma,
                    milli as int,
                    clip,
                    k,
                ) as u8,
            },
    )
}

/// Whether a method can run on a `width x height` image.
pub open spec fn method_fits(method: Equalization, width: int, height: int) -> bool {
    match method {
        Equalization::Global => true,
        Equalization::Adaptive { grid, .. } => grid_fits(grid, width, height),
    }
}

/// The alpha bytes of a packed RGBA buffer, one per pixel, row by row.
pub open spec fn alpha_plane(buf: Seq<u8>, stride: int, width: int, height: int) -> Seq<u8> {
    Seq::new((width * height) as nat, |k: int| buf[(k / width) * stride + (k % width) * 4 + 3])
}

/// Equalizes a luma plane, returning the new plane.
pub fn equalize_luma(y: &[u8], width: u32, height: u32, method: Equalization) -> (r: Result<Vec<u8>, AheError>)
    requires
        y@.len() == width * height,
    ensures
        r is Ok <==> method_fits(method, width as int, height as int),
        r is Ok ==> r->Ok_0@ == equalized_luma(y@, width as int, height as int, method),
        method matches Equalization::Adaptive { grid, .. } && (grid.w == 0 || grid.h == 0) ==> r == Err::<
            Vec<u8>,
            AheError,
        >(AheError::ZeroGrid),
        method matches Equalization::Adaptive { grid, .. } && grid.w != 0 && grid.h != 0 && (grid.w > width
            || grid.h > height) ==> r == Err::<Vec<u8>, AheError>(AheError::GridExceedsImage),
{
    let n = y.len();
    let mut plane: Vec<u16> = Vec::new();
    let mut i: usize = 0;
    while i < n
        invariant
            n == y@.len(),
            i <= n,
            plane@.len() == i,
            forall|j: int| 0 <= j < i ==> plane@[j] == y@[j] as u16,
        decreases n - i,
    {
        plane.push(y[i] as u16);
        i += 1;
    }
    assert(plane@ =~= widen(y@));
    match method {
        Equalization::Global => {
            equalize_plane_global(plane.as_mut_slice(), width, height, BinDomain::Luma);
        },
        Equalization::Adaptive { grid, milli, clip } => {
            equalize_plane(plane.as_mut_slice(), width, height, grid, BinDomain::Luma, milli, clip)?;
        },
    }
    assert(BinDomain::Luma.scale() * BinDomain::Luma.out_max() == 255);
    let ghost eq = plane@;
    let mut out: Vec<u8> = Vec::new();
    i = 0;
    while i < n
        invariant
            n == y@.len(),
            eq == plane@,
            plane@.len() == n,
            forall|j: int| 0 <= j < n ==> plane@[j] <= 255,
            i <= n,
            out@.len() == i,
            forall|j: int| 0 <= j < i ==> out@[j] == plane@[j] as u8,
        decreases n - i,
    {
        out.push(plane[i] as u8);
        i += 1;
    }
    assert(out@ =~= equalized_luma(y@, width as int, height as int, method));
    Ok(out)
}

/// Refuses a grid with no tiles along an axis, or more tiles than pixels.
pub fn check_method(method: Equalization, width: u32, height: u32) -> (r: Result<(), AheError>)
    ensures
        r is Ok <==> method_fits(method, width as int, height as int),
        method matches Equalization::Adaptive { grid, .. } && (grid.w == 0 || grid.h == 0) ==> r == Err::<
            (),
            AheError,
        >(AheError::ZeroGrid),
        method matches Equalization::Adaptive { grid, .. } && grid.w != 0 && grid.h != 0 && (grid.w > width
            || grid.h > height) ==> r == Err::<(), AheError>(AheError::GridExceedsImage),
{
    match method {
        Equalization::Global => Ok(()),
        Equalization::Adaptive { grid, .. } => {
            if grid.w == 0 || grid.h == 0 {
                Err(AheError::ZeroGrid)
            } else if grid.w > width || grid.h > height {
                Err(AheError::GridExceedsImage)
            } else {
                Ok(())
            }
        },
    }
}

fn extract_alpha(buf: &[u8], stride: u32, width: u32, height: u32) -> (r: Vec<u8>)
    requires
        stride >= width * 4,
        buf@.len() >= stride * height,
    ensures
        r@ == alpha_plane(buf@, stride as int, width as int, height as int),
{
    proof {
        assert(width * height <= 0xffff_ffff * 0xffff_ffff) by (nonlinear_arith)
            requires width <= 0xffff_ffff, height <= 0xffff_ffff;
        assert(width * height <= stride * height) by (nonlinear_arith)
            requires stride >= width * 4;
        assert(buf@.len() <= usize::MAX) by {
            let l = buf.len();
        }
    }
    let n: usize = width as usize * height as usize;
    let w = width as usize;
    let s = stride as usize;
    let mut a: Vec<u8> = Vec::new();
    let mut k: usize = 0;
    while k < n
        invariant
            n == width * height,
            w == width,
            s == stride,
            stride >= width * 4,
            buf@.len() >= stride * height,
            buf@.len() <= usize::MAX,
            k <= n,
            a@.len() == k,
            forall|j: int|
                0 <= j < k ==> a@[j] == #[trigger] alpha_plane(buf@, stride as int, width as int, height as int)[j],
        decreases n - k,
    {
        proof {
            lemma_fundamental_div_mod(k as int, w as int);
            assert(k / w < height) by (nonlinear_arith)
                requires k == w * (k / w) + k % w, k % w >= 0, k < w * height, w >= 1;
            lemma_div_is_ordered(0, k as int, w as int);
            let q = k / w;
            let m = k % w;
            assert(q * s + m * 4 + 3 < s * height) by (nonlinear_arith)
                requires q + 1 <= height, m + 1 <= w, s >= w * 4, q >= 0, m >= 0;
        }
        let idx = (k / w) * s + (k % w) * 4 + 3;
        a.push(buf[idx]);
        k += 1;
    }
    assert(a@ =~= alpha_plane(buf@, stride as int, width as int, height as int));
    a
}

/// Equalizes the luma plane of a set of YUV 4:4:4 planes; the chroma planes
/// are kept.
pub fn equalize_yuv_planes(planes: &mut YuvPlanes, width: u32, height: u32, method: Equalization) -> (r: Result<
    (),
    AheError,
>)
    requires
        old(planes).y@.len() == width * height,
    ensures
        r is Ok <==> method_fits(method, width as int, height as int),
        r is Ok ==> final(planes).y@ == equalized_luma(old(planes).y@, width as int, height as int, method),
        r is Err ==> final(planes).y@ == old(planes).y@,
        final(planes).y@.len() == old(planes).y@.len(),
        final(planes).u@ == old(planes).u@,
        final(planes).v@ == old(planes).v@,
        (method matches Equalization::Adaptive { grid, .. } && (grid.w == 0 || grid.h == 0)) ==> r == Err::<
            (),
            AheError,
        >(AheError::ZeroGrid),
        (method matches Equalization::Adaptive { grid, .. } && grid.w != 0 && grid.h != 0 && (grid.w > width
            || grid.h > height)) ==> r == Err::<(), AheError>(AheError::GridExceedsImage),
{
    let y = equalize_luma(planes.y.as_slice(), width, height, method)?;
    planes.y = y;
    Ok(())
}

/// A copy of `buf` lengthened with zeros to at least `len` bytes.
fn padded_copy(buf: &[u8], len: usize) -> (r: Vec<u8>)
    ensures
        r@.len() == if buf@.len() >= len {
            buf@.len() as int
        } else {
            len as int
        },
        forall|i: int| 0 <= i < buf@.len() ==> r@[i] == buf@[i],
{
    let mut out: Vec<u8> = Vec::new();
    let mut i: usize = 0;
    while i < buf.len()
        invariant
            i <= buf@.len(),
            out@.len() == i,
            forall|j: int| 0 <= j < i ==> out@[j] == buf@[j],
        decreases buf@.len() - i,
    {
        out.push(buf[i]);
        i += 1;
    }
    while out.len() < len
        invariant
            out@.len() >= buf@.len(),
            out@.len() <= if buf@.len() >= len {
                buf@.len() as int
            } else {
                len as int
            },
            forall|j: int| 0 <= j < buf@.len() ==> out@[j] == buf@[j],
        decreases len - out@.len(),
    {
        out.push(0);
    }
    out
}

/// Equalizes the luma of a packed RGB or RGBA buffer in place: converts it
/// to full-range BT.709 YUV 4:4:4, equalizes the Y plane with
/// `equalize_yuv_planes`, and converts back with the chroma (and alpha)
/// planes as they came. The last row needs no padding: the work is done on
/// a padded copy. The method is checked before any work, and the buffer is
/// written only when every step succeeded.
pub fn equalize_yuv(
    in_place: &mut [u8],
    stride: u32,
    width: u32,
    height: u32,
    channels: EqualizeHistogramChannels,
    method: Equalization,
) -> (r: Result<(), AheError>)
    requires
        stride >= width * channels.count(),
        (height - 1) * stride + width * channels.count() <= old(in_place)@.len(),
        stride * height <= usize::MAX,
    ensures
        yuv_outcome(old(in_place)@, final(in_place)@, r, width, height, method),
{
    check_method(method, width, height)?;
    let needed: usize = stride as usize * height as usize;
    let mut work = padded_copy(in_place, needed);
    let n = in_place.len();
    match channels {
        EqualizeHistogramChannels::Channels3 => {
            let mut planes = match rgb_to_planes(work.as_slice(), stride, width, height) {
                Ok(p) => p,
                Err(_) => {
                    return Err(AheError::Conversion);
                },
            };
            equalize_yuv_planes(&mut planes, width, height, method)?;
            if planes_to_rgb(&planes, work.as_mut_slice(), stride, width, height).is_err() {
                return Err(AheError::Conversion);
            }
        },
        EqualizeHistogramChannels::Channels4 => {
            let mut planes = match rgba_to_planes(work.as_slice(), stride, width, height) {
                Ok(p) => p,
                Err(_) => {
                    return Err(AheError::Conversion);
                },
            };
            let alpha = extract_alpha(work.as_slice(), stride, width, height);
            equalize_yuv_planes(&mut planes, width, height, method)?;
            if planes_to_rgba(&planes, alpha.as_slice(), work.as_mut_slice(), stride, width, height).is_err() {
                return Err(AheError::Conversion);
            }
        },
    }
    let mut i: usize = 0;
    while i < n
        invariant
            n == in_place@.len(),
            n == old(in_place)@.len(),
            work@.len() >= n,
            i <= n,
        decreases n - i,
    {
        in_place[i] = work[i];
        i += 1;
    }
    Ok(())
}

/// What `equalize_yuv` promises of a run from `before` to `after` with result
/// `r`: a bad grid is refused and nothing is written; a fitting method on a
/// non-empty image succeeds; an empty image is refused by the conversion
/// library; and the buffer changes only on success.
pub open spec fn yuv_outcome(
    before: Seq<u8>,
    after: Seq<u8>,
    r: Result<(), AheError>,
    width: u32,
    height: u32,
    method: Equalization,
) -> bool {
    &&& after.len() == before.len()
    &&& ((method matches Equalization::Adaptive { grid, .. } && (grid.w == 0 || grid.h == 0)) ==> r == Err::<
        (),
        AheError,
    >(AheError::ZeroGrid))
    &&& ((method matches Equalization::Adaptive { grid, .. } && grid.w != 0 && grid.h != 0 && (grid.w > width
        || grid.h > height)) ==> r == Err::<(), AheError>(AheError::GridExceedsImage))
    &&& (method_fits(method, width as int, height as int) && width > 0 && height > 0 ==> r is Ok)
    &&& (method_fits(method, width as int, height as int) && (width == 0 || height == 0) ==> r == Err::<
        (),
        AheError,
    >(AheError::Conversion))
    &&& (r is Err ==> after == before)
}

/// Contrast-limited adaptive equalization of an RGBA buffer's luma;
/// `threshold_milli` is the clip threshold in thousandths.
pub fn clahe_yuv_rgba(
    in_place: &mut [u8],
    stride: u32,
    width: u32,
    height: u32,
    threshold_milli: u32,
    grid_size: ClaheGridSize,
) -> (r: Result<(), AheError>)
    requires
        stride >= width * 4,
        (height - 1) * stride + width * 4 <= old(in_place)@.len(),
        stride * height <= usize::MAX,
    ensures
        yuv_outcome(
            old(in_place)@,
            final(in_place)@,
            r,
            width,
            height,
            Equalization::Adaptive { grid: grid_size, milli: threshold_milli, clip: true },
        ),
{
    let method = Equalization::Adaptive { grid: grid_size, milli: threshold_milli, clip: true };
    equalize_yuv(in_place, stride, width, height, EqualizeHistogramChannels::Channels4, method)
}

/// Contrast-limited adaptive equalization of an RGB buffer's luma;
/// `threshold_milli` is the clip threshold in thousandths.
pub fn clahe_yuv_rgb(
    in_place: &mut [u8],
    stride: u32,
    width: u32,
    height: u32,
    threshold_milli: u32,
    grid_size: ClaheGridSize,
) -> (r: Result<(), AheError>)
    requires
        stride >= width * 3,
        (height - 1) * stride + width * 3 <= old(in_place)@.len(),
        stride * height <= usize::MAX,
    ensures
        yuv_outcome(
            old(in_place)@,
            final(in_place)@,
            r,
            width,
            height,
            Equalization::Adaptive { grid: grid_size, milli: threshold_milli, clip: true },
        ),
{
    let method = Equalization::Adaptive { grid: grid_size, milli: threshold_milli, clip: true };
    equalize_yuv(in_place, stride, width, height, EqualizeHistogramChannels::Channels3, method)
}

/// Adaptive equalization without clipping of an RGB buffer's luma; the
/// threshold plays no part.
pub fn ahe_yuv_rgb(
    in_place: &mut [u8],
    stride: u32,
    width: u32,
    height: u32,
    threshold_milli: u32,
    grid_size: ClaheGridSize,
) -> (r: Result<(), AheError>)
    requires
        stride >= width * 3,
        (height - 1) * stride + width * 3 <= old(in_place)@.len(),
        stride * height <= usize::MAX,
    ensures
        yuv_outcome(
            old(in_place)@,
            final(in_place)@,
            r,
            width,
            height,
            Equalization::Adaptive { grid: grid_size, milli: threshold_milli, clip: false },
        ),
{
    let method = Equalization::Adaptive { grid: grid_size, milli: threshold_milli, clip: false };
    equalize_yuv(in_place, stride, width, height, EqualizeHistogramChannels::Channels3, method)
}

/// Adaptive equalization without clipping of an RGBA buffer's luma; the
/// threshold plays no part.
pub fn ahe_yuv_rgba(
    in_place: &mut [u8],
    stride: u32,
    width: u32,
    height: u32,
    threshold_milli: u32,
    grid_size: ClaheGridSize,
) -> (r: Result<(), AheError>)
    requires
        stride >= width * 4,
        (height - 1) * stride + width * 4 <= old(in_place)@.len(),
        stride * height <= usize::MAX,
    ensures
        yuv_outcome(
            old(in_place)@,
            final(in_place)@,
            r,
            width,
            height,
            Equalization::Adaptive { grid: grid_size, milli: threshold_milli, clip: false },
        ),
{
    let method = Equalization::Adaptive { grid: grid_size, milli: threshold_milli, clip: false };
    equalize_yuv(in_place, stride, width, height, EqualizeHistogramChannels::Channels4, method)
}

/// Global histogram equalization of an RGB buffer's luma.
pub fn equalize_hist_yuv_rgb(in_place: &mut [u8], stride: u32, width: u32, height: u32) -> (r: Result<(), AheError>)
    requires
        stride >= width * 3,
        (height - 1) * stride + width * 3 <= old(in_place)@.len(),
        stride * height <= usize::MAX,
    ensures
        yuv_outcome(
            old(in_place)@,
            final(in_place)@,
            r,
            width,
            height,
            Equalization::Global,
        ),
{
    equalize_yuv(in_place, stride, width, height, EqualizeHistogramChannels::Channels3, Equalization::Global)
}

/// Global histogram equalization of an RGBA buffer's luma.
pub fn equalize_hist_yuv_rgba(in_place: &mut [u8], stride: u32, width: u32, height: u32) -> (r: Result<(), AheError>)
    requires
        stride >= width * 4,
        (height - 1) * stride + width * 4 <= old(in_place)@.len(),
        stride * height <= usize::MAX,
    ensures
        yuv_outcome(
            old(in_place)@,
            final(in_place)@,
            r,
            width,
            height,
            Equalization::Global,
        ),
{
    equalize_yuv(in_place, stride, width, height, EqualizeHistogramChannels::Channels4, Equalization::Global)
}

} // verus!
