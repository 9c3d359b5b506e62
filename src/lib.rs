//! Adaptive and global histogram equalization of raster images.
//!
//! The engine works on one scalar channel per pixel (luma, or a lightness
//! held in hundredths of a percent), builds tile histograms, turns them into
//! monotone mapping tables (optionally contrast limited), and blends the
//! tables of the four nearest tiles for every pixel.
pub mod bitmap;
pub mod blend;
pub mod engine;
pub mod grid;
pub mod histogram;
pub mod morph;
pub mod pixel;
pub mod transfer;
pub mod yuv;

pub use histogram::{bin_index, make_histogram_region, BinDomain};
pub use transfer::{cdf, clip_hist_clahe, minmax, normalize_histogram};
pub use grid::ClaheGridSize;
pub use engine::{equalize_plane, equalize_plane_global, equalize_plane_squares, AheError, AheImplementation};
pub use yuv::{
    ahe_yuv_rgb, ahe_yuv_rgba, check_method, clahe_yuv_rgb, clahe_yuv_rgba, equalize_hist_yuv_rgb,
    equalize_hist_yuv_rgba, equalize_luma, equalize_yuv, equalize_yuv_planes, EqualizeHistogramChannels, Equalization, YuvPlanes,
};
pub use pixel::{Rgb, Rgb565, Rgba, Rgba1010102, ToRgb565, ToRgba1010102, ToRgba8};
pub use morph::{morph_op_mode_from_java, MorphOpMode};
pub use bitmap::{convert_rgb1010102_to_rgba8888, convert_rgb565_to_rgba8888, copy_image, PackedFormat};
