use image_magic::pixel::{Image, Pixel};
use image_magic::hilltop::{HilltopParamAndResult, HilltopError, find_top_n};
use image_magic::compositor::avg;

fn px(r: u8, g: u8, b: u8, a: u8) -> Pixel {
    Pixel { r, g, b, a }
}

fn solid(w: usize, h: usize, p: Pixel) -> Image {
    Image::new(w, h, p)
}

/// Two identical images: the difference map is all zeros, and the single
/// requested peak is reported at the lexicographically smallest coordinate
/// with weight zero.
#[test]
fn identical_images_zero_peak() {
    let bg = solid(4, 4, px(10, 20, 30, 255));
    let cg = solid(4, 4, px(10, 20, 30, 255));
    let params = HilltopParamAndResult::new(bg, cg, 2, 1);
    let (peaks, mean) = find_top_n(params).unwrap();
    assert_eq!(peaks.len(), 1);
    assert_eq!(peaks[0].get_x(), 0);
    assert_eq!(peaks[0].get_y(), 0);
    assert_eq!(peaks[0].get_weight(), 0);
    assert_eq!(mean, 0);
}

/// A 2x2 white block on a black background is localized within the
/// surrounding neighbourhood with a positive weight, and the mean difference
/// is the exact total divided by the pixel count.
#[test]
fn small_block_localized() {
    let bg = solid(10, 10, px(0, 0, 0, 255));
    let mut cg = solid(10, 10, px(0, 0, 0, 255));
    for x in 5..7 {
        for y in 5..7 {
            cg.set_pixel(x, y, px(255, 255, 255, 255));
        }
    }
    let params = HilltopParamAndResult::new(bg, cg, 3, 1);
    let (peaks, mean) = find_top_n(params).unwrap();
    assert_eq!(peaks.len(), 1);
    let x = peaks[0].get_x();
    let y = peaks[0].get_y();
    assert!(4 <= x && x <= 7, "x = {}", x);
    assert!(4 <= y && y <= 7, "y = {}", y);
    assert!(peaks[0].get_weight() > 0);
    // total difference is 4 pixels x 765, over 100 pixels
    assert_eq!(mean, 4 * 765 / 100);
}

fn two_blob_params(top_n: usize) -> HilltopParamAndResult {
    let bg = solid(40, 40, px(0, 0, 0, 255));
    let mut cg = solid(40, 40, px(0, 0, 0, 255));
    // two strong 3x3 blobs and one weaker one
    for dx in 0..3 {
        for dy in 0..3 {
            cg.set_pixel(7 + dx, 7 + dy, px(255, 255, 255, 255));
            cg.set_pixel(29 + dx, 29 + dy, px(255, 255, 255, 255));
            cg.set_pixel(19 + dx, 7 + dy, px(100, 100, 100, 255));
        }
    }
    HilltopParamAndResult::new(bg, cg, 5, top_n)
}

fn dist_ok(x: u32, y: u32, cx: i64, cy: i64, tol: i64) -> bool {
    (x as i64 - cx).abs() <= tol && (y as i64 - cy).abs() <= tol
}

/// With two well-separated strong differences and a weaker one, the first
/// two peaks land on the strong centres and the third lands elsewhere.
#[test]
fn three_peaks_separated() {
    let params = two_blob_params(3);
    let (peaks, _mean) = find_top_n(params).unwrap();
    assert_eq!(peaks.len(), 3);
    let (x1, y1) = (peaks[0].get_x(), peaks[0].get_y());
    let (x2, y2) = (peaks[1].get_x(), peaks[1].get_y());
    let (x3, y3) = (peaks[2].get_x(), peaks[2].get_y());
    // the two strong centres, within feature_size / 2
    assert!(dist_ok(x1, y1, 8, 8, 2), "first peak at ({}, {})", x1, y1);
    assert!(dist_ok(x2, y2, 30, 30, 2), "second peak at ({}, {})", x2, y2);
    // the third peak is not at either of the first two
    assert!(!dist_ok(x3, y3, x1 as i64, y1 as i64, 2), "third peak at ({}, {})", x3, y3);
    assert!(!dist_ok(x3, y3, x2 as i64, y2 as i64, 2), "third peak at ({}, {})", x3, y3);
}

/// Two runs on identical inputs produce identical output sequences.
#[test]
fn find_top_n_deterministic() {
    let (peaks_a, mean_a) = find_top_n(two_blob_params(3)).unwrap();
    let (peaks_b, mean_b) = find_top_n(two_blob_params(3)).unwrap();
    assert_eq!(mean_a, mean_b);
    assert_eq!(peaks_a, peaks_b);
}

/// Zero peaks requested: an empty sequence comes back, with the mean still
/// reported.
#[test]
fn zero_top_n() {
    let bg = solid(6, 6, px(0, 0, 0, 255));
    let cg = solid(6, 6, px(9, 0, 0, 255));
    let params = HilltopParamAndResult::new(bg, cg, 2, 0);
    let (peaks, mean) = find_top_n(params).unwrap();
    assert_eq!(peaks.len(), 0);
    assert_eq!(mean, 9);
}

#[test]
fn mismatched_dimensions_rejected() {
    let bg = solid(4, 4, px(0, 0, 0, 255));
    let cg = solid(5, 4, px(0, 0, 0, 255));
    let params = HilltopParamAndResult::new(bg, cg, 2, 1);
    assert_eq!(find_top_n(params).unwrap_err(), HilltopError::InvalidInput);
}

#[test]
fn zero_feature_size_rejected() {
    let bg = solid(4, 4, px(0, 0, 0, 255));
    let cg = solid(4, 4, px(0, 0, 0, 255));
    let params = HilltopParamAndResult::new(bg, cg, 0, 1);
    assert_eq!(find_top_n(params).unwrap_err(), HilltopError::InvalidInput);
}

#[test]
fn empty_image_rejected() {
    let bg = solid(0, 4, px(0, 0, 0, 255));
    let cg = solid(0, 4, px(0, 0, 0, 255));
    let params = HilltopParamAndResult::new(bg, cg, 2, 1);
    assert_eq!(find_top_n(params).unwrap_err(), HilltopError::InvalidInput);
}

/// Averaging identical images reproduces them.
#[test]
fn avg_identical_images() {
    let imgs = vec![solid(2, 2, px(10, 20, 30, 40)), solid(2, 2, px(10, 20, 30, 40))];
    let out = avg(&imgs).unwrap();
    assert_eq!(out.width(), 2);
    assert_eq!(out.height(), 2);
    for x in 0..2 {
        for y in 0..2 {
            assert_eq!(out.get_pixel(x, y), px(10, 20, 30, 40));
        }
    }
}

/// With three samples, the ~85% trim keeps the two closest to the mean and
/// discards the outlier.
#[test]
fn avg_discards_outlier() {
    let imgs = vec![
        solid(1, 1, px(10, 0, 0, 255)),
        solid(1, 1, px(12, 0, 0, 255)),
        solid(1, 1, px(200, 0, 0, 255)),
    ];
    let out = avg(&imgs).unwrap();
    // mean r = (10 + 12 + 200) / 3 = 74; the outlier 200 is farthest;
    // the kept samples 10 and 12 average to 11
    assert_eq!(out.get_pixel(0, 0), px(11, 0, 0, 255));
}

#[test]
fn avg_rejects_empty_and_mismatched() {
    let none: Vec<Image> = vec![];
    match avg(&none) {
        Err(e) => assert_eq!(e, HilltopError::InvalidInput),
        Ok(_) => panic!("empty input accepted"),
    }
    let imgs = vec![solid(2, 2, px(0, 0, 0, 0)), solid(3, 2, px(0, 0, 0, 0))];
    match avg(&imgs) {
        Err(e) => assert_eq!(e, HilltopError::InvalidInput),
        Ok(_) => panic!("mismatched input accepted"),
    }
}
