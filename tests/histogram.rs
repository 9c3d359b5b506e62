use aire_filters::{
    cdf, clip_hist_clahe, make_histogram_region, minmax, normalize_histogram, BinDomain,
};

#[test]
fn minmax_finds_extremes() {
    assert_eq!(minmax(&[5, 3, 9, 3, 7]), (3, 9));
    assert_eq!(minmax(&[4]), (4, 4));
}

#[test]
fn minmax_of_empty_slice() {
    assert_eq!(minmax(&[]), (u64::MAX, 0));
}

#[test]
fn cdf_is_running_total() {
    let mut bins = vec![1u64, 2, 0, 3];
    cdf(&mut bins);
    assert_eq!(bins, vec![1, 3, 3, 6]);
    for i in 1..bins.len() {
        assert!(bins[i] >= bins[i - 1]);
    }
}

#[test]
fn clip_redistributes_excess() {
    // sum 12 over 4 bins: mean 3, limit 3 + 3 * 1.0 = 6, excess 4, share 1
    let mut bins = vec![10u64, 0, 0, 2];
    clip_hist_clahe(&mut bins, 1000);
    assert_eq!(bins, vec![7, 1, 1, 3]);
    assert!(bins.iter().all(|&b| b <= 7));
}

#[test]
fn clip_limit_rounds_the_mean() {
    // sum 10 over 4 bins: mean round(2.5) = 3, limit 3 + round(3 * 0.5) = 5
    let mut bins = vec![8u64, 1, 1, 0];
    clip_hist_clahe(&mut bins, 500);
    // excess 3, share 0
    assert_eq!(bins, vec![5, 1, 1, 0]);
}

#[test]
fn clip_without_excess_keeps_bins() {
    let mut bins = vec![3u64, 3, 3, 3];
    clip_hist_clahe(&mut bins, 2000);
    assert_eq!(bins, vec![3, 3, 3, 3]);
}

#[test]
fn histogram_counts_region() {
    // 4 x 3 plane, stride 4
    let plane: Vec<u16> = vec![0, 1, 2, 3, 1, 1, 2, 255, 7, 7, 7, 300];
    let h = make_histogram_region(&plane, BinDomain::Luma, 4, 1, 3, 0, 2);
    assert_eq!(h.len(), 256);
    // columns 1..3 of rows 0..2: 1, 2, 1, 2
    assert_eq!(h[1], 2);
    assert_eq!(h[2], 2);
    assert_eq!(h.iter().sum::<u64>(), 4);
}

#[test]
fn histogram_sum_equals_area() {
    let plane: Vec<u16> = (0..(16 * 9)).map(|i| (i * 37 % 256) as u16).collect();
    let h = make_histogram_region(&plane, BinDomain::Luma, 16, 3, 11, 2, 9);
    assert_eq!(h.iter().sum::<u64>(), 8 * 7);
    let whole = make_histogram_region(&plane, BinDomain::Luma, 16, 0, 16, 0, 9);
    assert_eq!(whole.iter().sum::<u64>(), 16 * 9);
}

#[test]
fn empty_region_has_empty_histogram() {
    let plane: Vec<u16> = vec![1, 2, 3, 4];
    let h = make_histogram_region(&plane, BinDomain::Luma, 2, 1, 1, 0, 2);
    assert_eq!(h.iter().sum::<u64>(), 0);
}

#[test]
fn histogram_clamps_large_luma() {
    let plane: Vec<u16> = vec![300, 255, 1000];
    let h = make_histogram_region(&plane, BinDomain::Luma, 3, 0, 3, 0, 1);
    assert_eq!(h[255], 3);
}

#[test]
fn percent_samples_round_to_nearest_bin() {
    // hundredths of a percent: 149 -> 1, 150 -> 2, 10000 -> 100, 12000 -> 100
    let plane: Vec<u16> = vec![149, 150, 10000, 12000, 49];
    let h = make_histogram_region(&plane, BinDomain::Percent, 5, 0, 5, 0, 1);
    assert_eq!(h.len(), 101);
    assert_eq!(h[0], 1);
    assert_eq!(h[1], 1);
    assert_eq!(h[2], 1);
    assert_eq!(h[100], 2);
}

#[test]
fn normalize_stretches_to_full_range() {
    // two pixels at 10, two at 20: cdf 2 at 10, 4 at 20; darkest populated 2, denom 2
    let mut bins = vec![0u64; 256];
    bins[10] = 2;
    bins[20] = 2;
    normalize_histogram(&mut bins, BinDomain::Luma, 4, 0, false);
    assert_eq!(bins[10], 0);
    assert_eq!(bins[15], 0);
    assert_eq!(bins[20], 255);
    assert_eq!(bins[255], 255);
    assert_eq!(bins[0], 0);
}

#[test]
fn normalize_rounds_to_nearest() {
    // counts 1,1,1 at 0,1,2: cdf 1,2,3; darkest 1, denom 2: 0, 127.5 -> 128, 255
    let mut bins = vec![0u64; 256];
    bins[0] = 1;
    bins[1] = 1;
    bins[2] = 1;
    normalize_histogram(&mut bins, BinDomain::Luma, 3, 0, false);
    assert_eq!(bins[0], 0);
    assert_eq!(bins[1], 128);
    assert_eq!(bins[2], 255);
}

#[test]
fn normalize_single_value_is_identity() {
    let mut bins = vec![0u64; 256];
    bins[77] = 9;
    normalize_histogram(&mut bins, BinDomain::Luma, 9, 0, false);
    for i in 0..256 {
        assert_eq!(bins[i], i as u64);
    }
}

#[test]
fn normalize_percent_stays_in_range() {
    let mut bins = vec![0u64; 101];
    bins[3] = 5;
    bins[50] = 1;
    bins[99] = 4;
    normalize_histogram(&mut bins, BinDomain::Percent, 10, 1500, true);
    assert!(bins.iter().all(|&b| b <= 100));
    for i in 1..101 {
        assert!(bins[i] >= bins[i - 1]);
    }
}
