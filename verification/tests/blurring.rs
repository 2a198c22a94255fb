use pixel_filters::build_kernel;
use pixel_filters::FilterError;
use pixel_filters::Frame;
use pixel_filters::PixelProcessor;

fn frame(width: u32, height: u32, pixels: Vec<u8>) -> Frame {
    Frame { width, height, pixels }
}

#[test]
fn kernel_radius_two_exact() {
    let k = build_kernel(2000);
    assert_eq!(k, vec![433, 12729, 39212, 12729, 433]);
}

#[test]
fn kernel_radius_one_exact() {
    let k = build_kernel(1000);
    assert_eq!(k, vec![709, 64118, 709]);
}

#[test]
fn kernel_sums_to_one_with_odd_length() {
    for radius in [1, 500, 1000, 1500, 2000, 3700, 10000] {
        let k = build_kernel(radius);
        assert_eq!(k.len() % 2, 1);
        assert_eq!(k.len() as i64, 2 * (radius as i64 / 1000) + 1);
        assert_eq!(k.iter().sum::<u64>(), 65536);
        for i in 0..k.len() {
            assert_eq!(k[i], k[k.len() - 1 - i]);
        }
    }
}

#[test]
fn kernel_fractional_radius_is_single_tap() {
    assert_eq!(build_kernel(500), vec![65536]);
    assert_eq!(build_kernel(999), vec![65536]);
}

#[test]
fn blur_uniform_opaque_image_unchanged() {
    let p = PixelProcessor::new();
    let color = [7u8, 99, 203, 255];
    let pixels: Vec<u8> = color.iter().copied().cycle().take(9 * 4).collect();
    let mut f = frame(3, 3, pixels.clone());
    assert_eq!(p.gaussian_blur(&mut f, 2000), Ok(()));
    assert_eq!(f.pixels, pixels);
}

#[test]
fn blur_fractional_radius_is_identity() {
    let p = PixelProcessor::new();
    let pixels = vec![1, 2, 3, 4, 50, 60, 70, 80, 90, 100, 110, 120, 130, 140, 150, 160];
    let mut f = frame(2, 2, pixels.clone());
    assert_eq!(p.gaussian_blur(&mut f, 500), Ok(()));
    assert_eq!(f.pixels, pixels);
}

#[test]
fn blur_two_by_one_exact() {
    let p = PixelProcessor::new();
    let mut f = frame(2, 1, vec![255, 0, 0, 255, 0, 0, 255, 128]);
    assert_eq!(p.gaussian_blur(&mut f, 1000), Ok(()));
    // alpha is convolved like the color channels
    assert_eq!(f.pixels, vec![252, 0, 2, 253, 2, 0, 252, 129]);
}

#[test]
fn blur_two_by_two_exact() {
    let p = PixelProcessor::new();
    let mut f = frame(
        2,
        2,
        vec![255, 0, 0, 255, 0, 255, 0, 255, 0, 0, 255, 255, 255, 255, 255, 255],
    );
    assert_eq!(p.gaussian_blur(&mut f, 1500), Ok(()));
    assert_eq!(
        f.pixels,
        vec![205, 27, 27, 255, 48, 227, 27, 255, 48, 27, 227, 255, 205, 227, 227, 255]
    );
}

#[test]
fn blur_kernel_wider_than_image_never_errors() {
    let p = PixelProcessor::new();
    let mut f = frame(
        2,
        2,
        vec![255, 0, 0, 255, 0, 255, 0, 255, 0, 0, 255, 255, 255, 255, 255, 255],
    );
    // a 21-tap kernel on a 2x2 image: heavy edge clamping, no failure
    assert_eq!(p.gaussian_blur(&mut f, 10000), Ok(()));
    assert_eq!(
        f.pixels,
        vec![128, 112, 112, 255, 125, 142, 112, 255, 125, 112, 142, 255, 128, 142, 142, 255]
    );
}

#[test]
fn blur_nonpositive_radius_is_noop() {
    let p = PixelProcessor::new();
    let pixels = vec![9, 8, 7, 6, 5, 4, 3, 2];
    let mut f = frame(2, 1, pixels.clone());
    assert_eq!(p.gaussian_blur(&mut f, 0), Ok(()));
    assert_eq!(f.pixels, pixels);
    assert_eq!(p.gaussian_blur(&mut f, -2500), Ok(()));
    assert_eq!(f.pixels, pixels);
}

#[test]
fn blur_empty_image_is_noop() {
    let p = PixelProcessor::new();
    let mut f = frame(0, 0, Vec::new());
    assert_eq!(p.gaussian_blur(&mut f, 3000), Ok(()));
    assert_eq!(f.pixels, Vec::<u8>::new());
    let mut g = frame(0, 7, Vec::new());
    assert_eq!(p.gaussian_blur(&mut g, 3000), Ok(()));
    assert_eq!(g.pixels, Vec::<u8>::new());
}

#[test]
fn blur_rejects_bad_dimensions() {
    let p = PixelProcessor::new();
    let mut f = frame(2, 1, vec![0u8; 7]);
    assert_eq!(p.gaussian_blur(&mut f, 1000), Err(FilterError::InvalidDimensions));
    assert_eq!(f.pixels, vec![0u8; 7]);
}
