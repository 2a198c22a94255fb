use vstd::prelude::*;

verus! {

/// Errors reported by the filter engine.
#[derive(Clone, Copy, Debug, PartialEq, Eq, Structural)]
pub enum FilterError {
    /// The pixel buffer length does not equal `width * height * 4`.
    InvalidDimensions,
    /// A parameter would make the filter arithmetic degenerate, such as a
    /// contrast setting whose correction factor divides by zero.
    DegenerateKernelParameter,
}

/// An RGBA image: a flat byte buffer in row-major order, four bytes per
/// pixel in the order R, G, B, A. The buffer is owned by the host; the
/// engine mutates it in place for the duration of one call.
pub struct Frame {
    pub width: u32,
    pub height: u32,
    pub pixels: Vec<u8>,
}

impl Frame {
    /// A frame is well formed when the buffer holds exactly
    /// `width * height` four-byte pixels.
    pub open spec fn wf(self) -> bool {
        self.pixels@.len() == self.width * self.height * 4
    }

    /// Runtime check for `wf`; filters reject a frame that fails it
    /// before touching any pixel.
    pub fn is_well_formed(&self) -> (ok: bool)
        ensures
            ok == self.wf(),
    {
        proof {
            assert((self.width as int) * (self.height as int) * 4 <= 0xffff_ffff * 0xffff_ffff * 4)
                by (nonlinear_arith)
                requires
                    self.width <= 0xffff_ffff,
                    self.height <= 0xffff_ffff,
            ;
        }
        let need: u128 = (self.width as u128) * (self.height as u128) * 4;
        (self.pixels.len() as u128) == need
    }
}

} // verus!
