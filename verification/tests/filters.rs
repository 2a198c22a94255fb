use pixel_filters::FilterError;
use pixel_filters::Frame;
use pixel_filters::PixelProcessor;

fn frame(width: u32, height: u32, pixels: Vec<u8>) -> Frame {
    Frame { width, height, pixels }
}

#[test]
fn well_formed_checks_length() {
    assert!(frame(2, 2, vec![0u8; 16]).is_well_formed());
    assert!(!frame(2, 2, vec![0u8; 15]).is_well_formed());
    assert!(frame(0, 5, Vec::new()).is_well_formed());
}

#[test]
fn brightness_half_raises_and_saturates() {
    let p = PixelProcessor::new();
    let mut f = frame(1, 1, vec![100, 200, 30, 77]);
    assert_eq!(p.apply_brightness(&mut f, 500), Ok(()));
    assert_eq!(f.pixels, vec![227, 255, 157, 77]);
}

#[test]
fn brightness_negative_saturates_to_black() {
    let p = PixelProcessor::new();
    let mut f = frame(1, 1, vec![10, 200, 255, 5]);
    assert_eq!(p.apply_brightness(&mut f, -300), Ok(()));
    assert_eq!(f.pixels, vec![0, 123, 178, 5]);
}

#[test]
fn brightness_zero_is_identity() {
    let p = PixelProcessor::new();
    let mut f = frame(2, 1, vec![0, 63, 128, 255, 1, 2, 3, 4]);
    assert_eq!(p.apply_brightness(&mut f, 0), Ok(()));
    assert_eq!(f.pixels, vec![0, 63, 128, 255, 1, 2, 3, 4]);
}

#[test]
fn brightness_rejects_bad_dimensions() {
    let p = PixelProcessor::new();
    let mut f = frame(3, 1, vec![0u8; 8]);
    assert_eq!(p.apply_brightness(&mut f, 100), Err(FilterError::InvalidDimensions));
    assert_eq!(f.pixels, vec![0u8; 8]);
}

#[test]
fn contrast_concrete_values() {
    let p = PixelProcessor::new();
    let mut f = frame(2, 1, vec![100, 200, 30, 255, 128, 128, 128, 9]);
    assert_eq!(p.apply_contrast(&mut f, 100000), Ok(()));
    assert_eq!(f.pixels, vec![64, 255, 0, 255, 128, 128, 128, 9]);
}

#[test]
fn contrast_zero_is_identity() {
    let p = PixelProcessor::new();
    let mut f = frame(1, 2, vec![0, 1, 127, 200, 128, 129, 254, 255]);
    assert_eq!(p.apply_contrast(&mut f, 0), Ok(()));
    assert_eq!(f.pixels, vec![0, 1, 127, 200, 128, 129, 254, 255]);
}

#[test]
fn contrast_beyond_pole_inverts() {
    let p = PixelProcessor::new();
    let mut f = frame(1, 1, vec![0, 100, 200, 10]);
    assert_eq!(p.apply_contrast(&mut f, 300000), Ok(()));
    assert_eq!(f.pixels, vec![255, 255, 0, 10]);
}

#[test]
fn contrast_at_pole_is_degenerate() {
    let p = PixelProcessor::new();
    let mut f = frame(1, 1, vec![10, 20, 30, 40]);
    assert_eq!(p.apply_contrast(&mut f, 259000), Err(FilterError::DegenerateKernelParameter));
    assert_eq!(f.pixels, vec![10, 20, 30, 40]);
}

#[test]
fn contrast_rejects_bad_dimensions() {
    let p = PixelProcessor::new();
    let mut f = frame(1, 1, vec![0u8; 3]);
    assert_eq!(p.apply_contrast(&mut f, 50), Err(FilterError::InvalidDimensions));
    assert_eq!(f.pixels, vec![0u8; 3]);
}

#[test]
fn grayscale_two_by_two_exact() {
    let p = PixelProcessor::new();
    let mut f = frame(
        2,
        2,
        vec![255, 0, 0, 255, 0, 255, 0, 255, 0, 0, 255, 255, 255, 255, 255, 255],
    );
    assert_eq!(p.apply_grayscale(&mut f), Ok(()));
    assert_eq!(
        f.pixels,
        vec![76, 76, 76, 255, 149, 149, 149, 255, 29, 29, 29, 255, 255, 255, 255, 255]
    );
}

#[test]
fn grayscale_twice_equals_once() {
    let p = PixelProcessor::new();
    let mut once = frame(2, 1, vec![10, 20, 30, 40, 250, 3, 77, 0]);
    assert_eq!(p.apply_grayscale(&mut once), Ok(()));
    let mut twice = frame(2, 1, once.pixels.clone());
    assert_eq!(p.apply_grayscale(&mut twice), Ok(()));
    assert_eq!(twice.pixels, once.pixels);
}

#[test]
fn grayscale_rejects_bad_dimensions() {
    let p = PixelProcessor::new();
    let mut f = frame(2, 2, vec![0u8; 12]);
    assert_eq!(p.apply_grayscale(&mut f), Err(FilterError::InvalidDimensions));
}

#[test]
fn remove_background_thresholds_luminance() {
    let p = PixelProcessor::new();
    // gray level 102 has normalized luminance 0.4, level 153 has 0.6
    let mut f = frame(2, 1, vec![102, 102, 102, 200, 153, 153, 153, 200]);
    assert_eq!(p.remove_background(&mut f, 500), Ok(()));
    assert_eq!(f.pixels, vec![102, 102, 102, 0, 153, 153, 153, 200]);
}

#[test]
fn remove_background_zero_threshold_keeps_all() {
    let p = PixelProcessor::new();
    let mut f = frame(1, 1, vec![0, 0, 0, 7]);
    assert_eq!(p.remove_background(&mut f, 0), Ok(()));
    assert_eq!(f.pixels, vec![0, 0, 0, 7]);
}

#[test]
fn remove_background_rejects_bad_dimensions() {
    let p = PixelProcessor::new();
    let mut f = frame(1, 2, vec![0u8; 4]);
    assert_eq!(p.remove_background(&mut f, 500), Err(FilterError::InvalidDimensions));
}
