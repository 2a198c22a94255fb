use vstd::prelude::*;
use vstd::arithmetic::div_mod::lemma_div_is_ordered;

use crate::blur::blurred;
use crate::blur::horizontal_pass;
use crate::blur::vertical_pass;
use crate::frame::FilterError;
use crate::kernel::build_kernel;
use crate::kernel::gaussian_kernel;
use crate::frame::Frame;
use crate::pixel::brightened;
use crate::pixel::brighten_buffer;
use crate::pixel::contrasted;
use crate::pixel::contrast_buffer;
use crate::pixel::grayed;
use crate::pixel::gray_buffer;
use crate::pixel::masked;
use crate::pixel::mask_buffer;

verus! {

/// The filter engine. It is stateless: every method borrows a frame for
/// the duration of one call and mutates it in place.
///
/// All fractional parameters are fixed point in thousandths: a brightness
/// of `500` means `0.5`, a contrast of `259000` means `259`.
pub struct PixelProcessor;

impl PixelProcessor {
    pub fn new() -> PixelProcessor {
        PixelProcessor
    }

    /// Brighten R, G and B of every pixel by `brightness` (thousandths of
    /// full scale); alpha is untouched. Rejects a malformed frame.
    pub fn apply_brightness(&self, frame: &mut Frame, brightness: i32) -> (res: Result<
        (),
        FilterError,
    >)
        ensures
            final(frame).width == old(frame).width,
            final(frame).height == old(frame).height,
            res.is_ok() == old(frame).wf(),
            old(frame).wf() ==> res == Ok::<(), FilterError>(()) && final(frame).pixels@
                == brightened(old(frame).pixels@, brightness as int),
            !old(frame).wf() ==> res == Err::<(), FilterError>(FilterError::InvalidDimensions)
                && final(frame).pixels@ == old(frame).pixels@,
    {
        if !frame.is_well_formed() {
            return Err(FilterError::InvalidDimensions);
        }
        proof {
            lemma_wf_len_multiple(*frame);
        }
        brighten_buffer(&mut frame.pixels, brightness);
        Ok(())
    }

    /// Adjust the contrast of R, G and B of every pixel by `contrast`
    /// (thousandths); alpha is untouched. A contrast of exactly 259
    /// would divide by zero in the correction factor and is rejected as
    /// degenerate; a malformed frame is rejected first.
    pub fn apply_contrast(&self, frame: &mut Frame, contrast: i32) -> (res: Result<
        (),
        FilterError,
    >)
        ensures
            final(frame).width == old(frame).width,
            final(frame).height == old(frame).height,
            res.is_ok() == (old(frame).wf() && contrast != 259000),
            old(frame).wf() && contrast != 259000 ==> res == Ok::<(), FilterError>(())
                && final(frame).pixels@ == contrasted(old(frame).pixels@, contrast as int),
            !old(frame).wf() ==> res == Err::<(), FilterError>(FilterError::InvalidDimensions),
            old(frame).wf() && contrast == 259000 ==> res == Err::<(), FilterError>(
                FilterError::DegenerateKernelParameter,
            ),
            !res.is_ok() ==> final(frame).pixels@ == old(frame).pixels@,
    {
        if !frame.is_well_formed() {
            return Err(FilterError::InvalidDimensions);
        }
        if contrast == 259000 {
            return Err(FilterError::DegenerateKernelParameter);
        }
        proof {
            lemma_wf_len_multiple(*frame);
        }
        contrast_buffer(&mut frame.pixels, contrast);
        Ok(())
    }

    /// Replace R, G and B of every pixel with the pixel's gray value
    /// `0.299 R + 0.587 G + 0.114 B`, truncated; alpha is untouched.
    /// Rejects a malformed frame.
    pub fn apply_grayscale(&self, frame: &mut Frame) -> (res: Result<(), FilterError>)
        ensures
            final(frame).width == old(frame).width,
            final(frame).height == old(frame).height,
            res.is_ok() == old(frame).wf(),
            old(frame).wf() ==> res == Ok::<(), FilterError>(())
                && final(frame).pixels@ == grayed(old(frame).pixels@),
            !old(frame).wf() ==> res == Err::<(), FilterError>(FilterError::InvalidDimensions)
                && final(frame).pixels@ == old(frame).pixels@,
    {
        if !frame.is_well_formed() {
            return Err(FilterError::InvalidDimensions);
        }
        proof {
            lemma_wf_len_multiple(*frame);
        }
        gray_buffer(&mut frame.pixels);
        Ok(())
    }

    /// Blur the frame with a separable Gaussian of the given radius
    /// (thousandths of a pixel): one pass along rows into a scratch
    /// buffer, one pass along columns back into the frame, with
    /// clamp-to-edge sampling. All four channels are convolved. A radius
    /// of zero or less, or an empty image, is a no-op; a malformed frame
    /// is rejected.
    pub fn gaussian_blur(&self, frame: &mut Frame, radius: i32) -> (res: Result<(), FilterError>)
        ensures
            final(frame).width == old(frame).width,
            final(frame).height == old(frame).height,
            res.is_ok() == old(frame).wf(),
            !old(frame).wf() ==> res == Err::<(), FilterError>(FilterError::InvalidDimensions)
                && final(frame).pixels@ == old(frame).pixels@,
            old(frame).wf() && (radius <= 0 || old(frame).width == 0 || old(frame).height == 0)
                ==> res == Ok::<(), FilterError>(()) && final(frame).pixels@ == old(
                frame,
            ).pixels@,
            old(frame).wf() && radius >= 1 && old(frame).width >= 1 && old(frame).height >= 1
                ==> res == Ok::<(), FilterError>(()) && final(frame).pixels@ == blurred(
                old(frame).pixels@,
                old(frame).width as int,
                old(frame).height as int,
                gaussian_kernel(radius as int),
            ),
    {
        if !frame.is_well_formed() {
            return Err(FilterError::InvalidDimensions);
        }
        if radius <= 0 || frame.width == 0 || frame.height == 0 {
            return Ok(());
        }
        let k = build_kernel(radius);
        proof {
            lemma_div_is_ordered(radius as int, 2147483647, 1000);
        }
        let scratch = horizontal_pass(&frame.pixels, frame.width, frame.height, &k);
        let result = vertical_pass(&scratch, frame.width, frame.height, &k);
        frame.pixels = result;
        Ok(())
    }

    /// Make every pixel whose normalized luminance lies below `threshold`
    /// (thousandths) fully transparent; R, G, B and the alpha of brighter
    /// pixels are untouched. Rejects a malformed frame.
    pub fn remove_background(&self, frame: &mut Frame, threshold: i32) -> (res: Result<
        (),
        FilterError,
    >)
        ensures
            final(frame).width == old(frame).width,
            final(frame).height == old(frame).height,
            res.is_ok() == old(frame).wf(),
            old(frame).wf() ==> res == Ok::<(), FilterError>(())
                && final(frame).pixels@ == masked(old(frame).pixels@, threshold as int),
            !old(frame).wf() ==> res == Err::<(), FilterError>(FilterError::InvalidDimensions)
                && final(frame).pixels@ == old(frame).pixels@,
    {
        if !frame.is_well_formed() {
            return Err(FilterError::InvalidDimensions);
        }
        proof {
            lemma_wf_len_multiple(*frame);
        }
        mask_buffer(&mut frame.pixels, threshold);
        Ok(())
    }
}

/// A well-formed frame's buffer length is a multiple of four.
proof fn lemma_wf_len_multiple(frame: Frame)
    requires
        frame.wf(),
    ensures
        frame.pixels@.len() % 4 == 0,
{
    assert((frame.width * frame.height * 4) % 4 == 0) by (nonlinear_arith);
}

} // verus!
