use aspen::hashing::{dhash_bits, luma_stretch_range};

#[test]
fn dhash_of_a_flat_image_is_zero() {
    assert_eq!(dhash_bits(&[128u8; 72]), 0);
}

#[test]
fn dhash_sets_bits_where_the_left_pixel_is_brighter() {
    // Each row falls from left to right: every comparison is "brighter".
    let mut falling = [0u8; 72];
    for y in 0..8 {
        for x in 0..9 {
            falling[y * 9 + x] = (200 - x * 10) as u8;
        }
    }
    assert_eq!(dhash_bits(&falling), u64::MAX);
    // Only pixel (0, 0) is brighter than its neighbour.
    let mut one = [0u8; 72];
    one[0] = 1;
    assert_eq!(dhash_bits(&one), 1);
    // Pixel (3, 2) brighter than (4, 2) sets bit 2 * 8 + 3.
    let mut other = [0u8; 72];
    other[2 * 9 + 3] = 5;
    assert_eq!(dhash_bits(&other), 1 << 19);
}

#[test]
fn stretch_range_clips_one_percent_each_side() {
    let mut hist = [0u64; 256];
    hist[0] = 1;
    hist[10] = 98;
    hist[250] = 1;
    assert_eq!(luma_stretch_range(&hist, 100), Some((0, 250)));
    let mut hist = [0u64; 256];
    hist[0] = 2;
    hist[10] = 196;
    hist[250] = 2;
    assert_eq!(luma_stretch_range(&hist, 200), Some((0, 250)));
    let mut hist = [0u64; 256];
    hist[0] = 1;
    hist[20] = 100;
    hist[40] = 98;
    hist[60] = 1;
    // The tail is two pixels: the single outliers at each end are clipped.
    assert_eq!(luma_stretch_range(&hist, 200), Some((20, 40)));
}

#[test]
fn flat_or_empty_histograms_are_not_stretched() {
    let hist = [0u64; 256];
    assert_eq!(luma_stretch_range(&hist, 0), None);
    let mut hist = [0u64; 256];
    hist[77] = 1000;
    assert_eq!(luma_stretch_range(&hist, 1000), None);
}
