use aire_filters::{equalize_plane, BinDomain, ClaheGridSize};

#[test]
fn grid_size_constructor() {
    let g = ClaheGridSize::new(3, 5);
    assert_eq!((g.w, g.h), (3, 5));
}

#[test]
fn every_grid_up_to_the_image_size_is_accepted() {
    let (w, h) = (7u32, 5u32);
    for gw in 1..=w {
        for gh in 1..=h {
            let mut p: Vec<u16> = (0..w * h).map(|i| (i * 11 % 256) as u16).collect();
            let r = equalize_plane(&mut p, w, h, ClaheGridSize::new(gw, gh), BinDomain::Luma, 1000, true);
            assert_eq!(r, Ok(()));
        }
    }
}
