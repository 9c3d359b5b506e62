use aire_filters::{
    ahe_yuv_rgb, ahe_yuv_rgba, clahe_yuv_rgb, clahe_yuv_rgba, equalize_hist_yuv_rgb, equalize_hist_yuv_rgba,
    equalize_luma, AheError, ClaheGridSize, EqualizeHistogramChannels, Equalization,
};

fn image(width: usize, height: usize, stride: usize, channels: usize) -> Vec<u8> {
    let mut buf = vec![0u8; stride * height];
    for y in 0..height {
        for x in 0..width {
            let p = y * stride + x * channels;
            buf[p] = (60 + (x * 3 + y) % 80) as u8;
            buf[p + 1] = (70 + (x + 2 * y) % 70) as u8;
            buf[p + 2] = (50 + (x * 5 + y * 3) % 90) as u8;
            if channels == 4 {
                buf[p + 3] = ((x * 17 + y * 29) % 256) as u8;
            }
        }
    }
    buf
}

#[test]
fn channel_selector() {
    assert_eq!(EqualizeHistogramChannels::try_from_u8(0), Ok(EqualizeHistogramChannels::Channels3));
    assert_eq!(EqualizeHistogramChannels::try_from_u8(1), Ok(EqualizeHistogramChannels::Channels4));
    assert_eq!(EqualizeHistogramChannels::try_from_u8(2), Err(AheError::UnsupportedChannels));
}

#[test]
fn flat_gray_survives_ahe() {
    let mut buf = vec![100u8; 8 * 8 * 3];
    let r = ahe_yuv_rgb(&mut buf, 24, 8, 8, 0, ClaheGridSize::new(2, 2));
    assert_eq!(r, Ok(()));
    assert!(buf.iter().all(|&v| v == 100));
}

#[test]
fn zero_grid_leaves_buffer() {
    let mut buf = image(16, 8, 64, 4);
    let before = buf.clone();
    let r = clahe_yuv_rgba(&mut buf, 64, 16, 8, 2000, ClaheGridSize::new(0, 3));
    assert_eq!(r, Err(AheError::ZeroGrid));
    assert_eq!(buf, before);
}

#[test]
fn oversized_grid_leaves_buffer() {
    let mut buf = image(4, 4, 12, 3);
    let before = buf.clone();
    let r = clahe_yuv_rgb(&mut buf, 12, 4, 4, 2000, ClaheGridSize::new(5, 1));
    assert_eq!(r, Err(AheError::GridExceedsImage));
    assert_eq!(buf, before);
}

#[test]
fn clahe_rgba_keeps_alpha_and_padding() {
    let (w, h, stride) = (32usize, 24usize, 32 * 4 + 8);
    let mut buf = image(w, h, stride, 4);
    for y in 0..h {
        for k in w * 4..stride {
            buf[y * stride + k] = 0xAB;
        }
    }
    let before = buf.clone();
    let r = clahe_yuv_rgba(&mut buf, stride as u32, w as u32, h as u32, 2000, ClaheGridSize::new(4, 3));
    assert_eq!(r, Ok(()));
    for y in 0..h {
        for x in 0..w {
            assert_eq!(buf[y * stride + x * 4 + 3], before[y * stride + x * 4 + 3]);
        }
        for k in w * 4..stride {
            assert_eq!(buf[y * stride + k], 0xAB);
        }
    }
    assert_ne!(buf, before);
}

#[test]
fn ahe_rgba_keeps_alpha() {
    let (w, h) = (20usize, 20usize);
    let mut buf = image(w, h, w * 4, 4);
    let before = buf.clone();
    let r = ahe_yuv_rgba(&mut buf, (w * 4) as u32, w as u32, h as u32, 0, ClaheGridSize::new(2, 2));
    assert_eq!(r, Ok(()));
    for i in 0..w * h {
        assert_eq!(buf[i * 4 + 3], before[i * 4 + 3]);
    }
}

fn luma_range(buf: &[u8], channels: usize) -> (u8, u8) {
    let mut lo = 255u8;
    let mut hi = 0u8;
    for px in buf.chunks(channels) {
        let y = (0.2126 * px[0] as f64 + 0.7152 * px[1] as f64 + 0.0722 * px[2] as f64).round() as u8;
        lo = lo.min(y);
        hi = hi.max(y);
    }
    (lo, hi)
}

#[test]
fn global_equalization_widens_luma() {
    let (w, h) = (30usize, 20usize);
    let mut buf = image(w, h, w * 3, 3);
    let (lo0, hi0) = luma_range(&buf, 3);
    let r = equalize_hist_yuv_rgb(&mut buf, (w * 3) as u32, w as u32, h as u32);
    assert_eq!(r, Ok(()));
    let (lo1, hi1) = luma_range(&buf, 3);
    assert!(hi1 as i32 - lo1 as i32 > hi0 as i32 - lo0 as i32);
}

#[test]
fn global_rgba_equalization_changes_image() {
    let (w, h) = (12usize, 10usize);
    let mut buf = image(w, h, w * 4, 4);
    let before = buf.clone();
    let r = equalize_hist_yuv_rgba(&mut buf, (w * 4) as u32, w as u32, h as u32);
    assert_eq!(r, Ok(()));
    assert_ne!(buf, before);
}

#[test]
fn luma_pass_on_plain_plane() {
    let y: Vec<u8> = vec![10, 20, 20, 30];
    assert_eq!(equalize_luma(&y, 4, 1, Equalization::Global), Ok(vec![0, 170, 170, 255]));
    let adaptive = Equalization::Adaptive { grid: ClaheGridSize::new(2, 1), milli: 0, clip: false };
    assert_eq!(equalize_luma(&[0, 100, 100, 200], 4, 1, adaptive), Ok(vec![0, 255, 127, 255]));
    let bad = Equalization::Adaptive { grid: ClaheGridSize::new(0, 1), milli: 0, clip: false };
    assert_eq!(equalize_luma(&y, 4, 1, bad), Err(AheError::ZeroGrid));
}

#[test]
fn short_last_row_matches_padded_buffer() {
    let (w, h, stride) = (6usize, 5usize, 28usize);
    let full = image(w, h, stride, 4);
    let mut padded = full.clone();
    let mut short = full[..stride * (h - 1) + w * 4].to_vec();
    let g = ClaheGridSize::new(2, 2);
    assert_eq!(clahe_yuv_rgba(&mut padded, stride as u32, w as u32, h as u32, 1500, g), Ok(()));
    assert_eq!(clahe_yuv_rgba(&mut short, stride as u32, w as u32, h as u32, 1500, g), Ok(()));
    assert_eq!(&padded[..short.len()], &short[..]);
}

#[test]
fn empty_image_is_refused_by_conversion() {
    let mut buf = vec![3u8; 12];
    assert_eq!(equalize_hist_yuv_rgb(&mut buf, 12, 0, 1), Err(AheError::Conversion));
    assert_eq!(buf, vec![3u8; 12]);
}

fn luma(px: &[u8]) -> f64 {
    0.2126 * px[0] as f64 + 0.7152 * px[1] as f64 + 0.0722 * px[2] as f64
}

#[test]
fn clahe_rgba_ramp_scenario() {
    let (w, h) = (256usize, 256usize);
    let mut buf = vec![0u8; w * h * 4];
    for y in 0..h {
        for x in 0..w {
            buf[(y * w + x) * 4..(y * w + x) * 4 + 4].copy_from_slice(&[x as u8, x as u8, x as u8, 255]);
        }
    }
    let before = buf.clone();
    let r = clahe_yuv_rgba(&mut buf, (w * 4) as u32, w as u32, h as u32, 2000, ClaheGridSize::new(4, 4));
    assert_eq!(r, Ok(()));
    let var = |b: &[u8], x0: usize, y0: usize| {
        let vals: Vec<f64> = (y0..y0 + 64)
            .flat_map(|y| (x0..x0 + 64).map(move |x| (y, x)))
            .map(|(y, x)| luma(&b[(y * w + x) * 4..(y * w + x) * 4 + 3]))
            .collect();
        let m = vals.iter().sum::<f64>() / vals.len() as f64;
        vals.iter().map(|v| (v - m) * (v - m)).sum::<f64>() / vals.len() as f64
    };
    for ty in 0..4 {
        for &tx in &[0usize, 3] {
            assert!(var(&buf, tx * 64, ty * 64) > var(&before, tx * 64, ty * 64));
        }
    }
    for i in 0..w * h {
        assert_eq!(buf[i * 4 + 3], 255);
    }
}
