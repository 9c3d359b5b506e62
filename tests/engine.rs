use aire_filters::{
    equalize_plane, equalize_plane_global, make_histogram_region, normalize_histogram, AheError, BinDomain,
    ClaheGridSize,
};

fn ramp(width: usize, height: usize) -> Vec<u16> {
    let mut p = Vec::with_capacity(width * height);
    for _ in 0..height {
        for x in 0..width {
            p.push((x * 255 / (width - 1)) as u16);
        }
    }
    p
}

fn variance(values: &[u16]) -> f64 {
    let n = values.len() as f64;
    let mean = values.iter().map(|&v| v as f64).sum::<f64>() / n;
    values.iter().map(|&v| (v as f64 - mean) * (v as f64 - mean)).sum::<f64>() / n
}

fn tile(p: &[u16], width: usize, x0: usize, x1: usize, y0: usize, y1: usize) -> Vec<u16> {
    let mut out = Vec::new();
    for y in y0..y1 {
        for x in x0..x1 {
            out.push(p[y * width + x]);
        }
    }
    out
}

#[test]
fn zero_grid_is_refused() {
    let mut p = vec![5u16; 16];
    let r = equalize_plane(&mut p, 4, 4, ClaheGridSize::new(0, 2), BinDomain::Luma, 2000, true);
    assert_eq!(r, Err(AheError::ZeroGrid));
    let r = equalize_plane(&mut p, 4, 4, ClaheGridSize::new(2, 0), BinDomain::Luma, 2000, true);
    assert_eq!(r, Err(AheError::ZeroGrid));
    assert_eq!(p, vec![5u16; 16]);
}

#[test]
fn grid_larger_than_image_is_refused() {
    let mut p: Vec<u16> = (0..12).collect();
    let r = equalize_plane(&mut p, 4, 3, ClaheGridSize::new(2, 4), BinDomain::Luma, 0, false);
    assert_eq!(r, Err(AheError::GridExceedsImage));
    assert_eq!(p, (0..12).collect::<Vec<u16>>());
}

#[test]
fn flat_plane_is_unchanged_by_ahe() {
    let mut p = vec![77u16; 40 * 30];
    let r = equalize_plane(&mut p, 40, 30, ClaheGridSize::new(3, 4), BinDomain::Luma, 0, false);
    assert_eq!(r, Ok(()));
    assert!(p.iter().all(|&v| v == 77));
}

#[test]
fn flat_plane_is_unchanged_by_global() {
    let mut p = vec![201u16; 17 * 5];
    equalize_plane_global(&mut p, 17, 5, BinDomain::Luma);
    assert!(p.iter().all(|&v| v == 201));
    let mut z = vec![0u16; 9];
    equalize_plane_global(&mut z, 3, 3, BinDomain::Luma);
    assert!(z.iter().all(|&v| v == 0));
}

#[test]
fn global_exact_values() {
    // counts 1, 2, 1 at 10, 20, 30: running totals 1, 3, 4; darkest 1, denom 3
    let mut p: Vec<u16> = vec![10, 20, 20, 30];
    equalize_plane_global(&mut p, 4, 1, BinDomain::Luma);
    assert_eq!(p, vec![0, 170, 170, 255]);
}

#[test]
fn global_percent_domain_in_hundredths() {
    let mut p: Vec<u16> = vec![1000, 5000];
    equalize_plane_global(&mut p, 2, 1, BinDomain::Percent);
    assert_eq!(p, vec![0, 10000]);
}

#[test]
fn bilinear_blend_between_two_tiles() {
    // two tiles of width 2; pixel 2 sits halfway between the tile centers
    let mut p: Vec<u16> = vec![0, 100, 100, 200];
    let r = equalize_plane(&mut p, 4, 1, ClaheGridSize::new(2, 1), BinDomain::Luma, 0, false);
    assert_eq!(r, Ok(()));
    assert_eq!(p, vec![0, 255, 127, 255]);
}

#[test]
fn last_tile_absorbs_remainder() {
    // width 5 with 2 columns: tiles [0, 2) and [2, 5)
    let mut p: Vec<u16> = vec![9, 9, 1, 2, 3];
    let r = equalize_plane(&mut p, 5, 1, ClaheGridSize::new(2, 1), BinDomain::Luma, 0, false);
    assert_eq!(r, Ok(()));
    assert!(p.iter().all(|&v| v <= 255));
    assert_eq!(p[4], 255);
}

#[test]
fn single_tile_matches_global() {
    let width = 23usize;
    let height = 17usize;
    let src: Vec<u16> = (0..width * height).map(|i| ((i * 7919) % 256) as u16).collect();
    let mut a = src.clone();
    let mut b = src.clone();
    let r = equalize_plane(&mut a, width as u32, height as u32, ClaheGridSize::new(1, 1), BinDomain::Luma, 3000, false);
    assert_eq!(r, Ok(()));
    equalize_plane_global(&mut b, width as u32, height as u32, BinDomain::Luma);
    assert_eq!(a, b);
}

#[test]
fn single_tile_matches_global_in_percent() {
    let src: Vec<u16> = (0..60u32).map(|i| ((i * 613) % 10001) as u16).collect();
    let mut a = src.clone();
    let mut b = src.clone();
    let r = equalize_plane(&mut a, 10, 6, ClaheGridSize::new(1, 1), BinDomain::Percent, 0, false);
    assert_eq!(r, Ok(()));
    equalize_plane_global(&mut b, 10, 6, BinDomain::Percent);
    assert_eq!(a, b);
}

#[test]
fn clahe_ramp_scenario() {
    let (w, h) = (256usize, 256usize);
    let src = ramp(w, h);
    let mut out = src.clone();
    let r = equalize_plane(&mut out, w as u32, h as u32, ClaheGridSize::new(4, 4), BinDomain::Luma, 2000, true);
    assert_eq!(r, Ok(()));
    // the border tiles, whose outer halves use a single table, gain contrast
    for ty in 0..4 {
        for &tx in &[0usize, 3] {
            let (x0, x1, y0, y1) = (tx * 64, tx * 64 + 64, ty * 64, ty * 64 + 64);
            let before = variance(&tile(&src, w, x0, x1, y0, y1));
            let after = variance(&tile(&out, w, x0, x1, y0, y1));
            assert!(after > before, "tile ({}, {}): {} <= {}", tx, ty, after, before);
        }
    }
    // every row of the ramp is the same, so every row of the result is too
    for y in 1..h {
        assert_eq!(&out[y * w..(y + 1) * w], &out[0..w]);
    }
    // the ends of the ramp keep their order up to the first tile center
    for x in 1..32 {
        assert!(out[x] > out[x - 1]);
    }
    assert_eq!(out[0], 0);
    assert_eq!(out[255], 255);
}

#[test]
fn outputs_stay_in_luma_range() {
    let (w, h) = (37usize, 29usize);
    let src: Vec<u16> = (0..w * h).map(|i| ((i * 131 + i / 7) % 256) as u16).collect();
    for &clip in &[true, false] {
        let mut p = src.clone();
        let r = equalize_plane(&mut p, w as u32, h as u32, ClaheGridSize::new(5, 3), BinDomain::Luma, 1500, clip);
        assert_eq!(r, Ok(()));
        assert!(p.iter().all(|&v| v <= 255));
    }
}

#[test]
fn clipped_single_tile_uses_one_table() {
    let (w, h) = (19usize, 11usize);
    let src: Vec<u16> = (0..w * h).map(|i| ((i * i + 3 * i) % 97 + 40) as u16).collect();
    let mut table = make_histogram_region(&src, BinDomain::Luma, w as u32, 0, w as u32, 0, h as u32);
    normalize_histogram(&mut table, BinDomain::Luma, (w * h) as u64, 2000, true);
    let mut out = src.clone();
    let r = equalize_plane(&mut out, w as u32, h as u32, ClaheGridSize::new(1, 1), BinDomain::Luma, 2000, true);
    assert_eq!(r, Ok(()));
    for k in 0..w * h {
        assert_eq!(out[k] as u64, table[src[k] as usize]);
    }
}
