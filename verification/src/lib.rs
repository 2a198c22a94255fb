//! Pixel-level image filters on raw RGBA byte buffers.
//!
//! Every filter works on a [`frame::Frame`]: a flat `width * height * 4`
//! byte buffer in row-major R, G, B, A order. Filter parameters are fixed
//! point, given in thousandths, so that every transform is exact integer
//! arithmetic with truncating (not rounding) conversion back to bytes.

mod blur;
mod frame;
mod kernel;
mod pixel;
mod processor;

pub use blur::blurred;
pub use blur::byte_of;
pub use blur::channel_at;
pub use blur::clamp_coord;
pub use blur::col_pass;
pub use blur::conv_col;
pub use blur::conv_row;
pub use blur::lemma_blur_single_tap;
pub use blur::lemma_blur_small_radius_identity;
pub use blur::lemma_blur_uniform;
pub use blur::lemma_gaussian_blur_uniform;
pub use blur::row_pass;
pub use blur::uniform_color;
pub use frame::FilterError;
pub use frame::Frame;
pub use kernel::build_kernel;
pub use kernel::exp_q16;
pub use kernel::gaussian_kernel;
pub use kernel::half_of;
pub use kernel::lemma_kernel_normalized;
pub use kernel::lemma_kernel_single_tap;
pub use kernel::lemma_kernel_symmetric;
pub use kernel::poly_einv;
pub use kernel::pow_einv;
pub use kernel::raw_kernel;
pub use kernel::scaled_kernel;
pub use kernel::sum_ints;
pub use kernel::taps_of;
pub use kernel::tau;
pub use kernel::weights_of;
pub use pixel::lemma_brightness_zero_identity;
pub use pixel::lemma_contrast_zero_identity;
pub use pixel::lemma_grayscale_idempotent;
pub use pixel::brightened;
pub use pixel::bright_channel;
pub use pixel::clamp_ratio;
pub use pixel::clamp_scaled;
pub use pixel::contrast_channel;
pub use pixel::contrast_den;
pub use pixel::contrast_num;
pub use pixel::contrasted;
pub use pixel::gray_of;
pub use pixel::grayed;
pub use pixel::lum_1000;
pub use pixel::masked;
pub use processor::PixelProcessor;
