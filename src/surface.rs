//! RGBA pixels and images as plain values.
use vstd::prelude::*;

verus! {

/// One RGBA pixel with 8 bits per channel, in the order red, green, blue, alpha.
#[derive(Clone, Copy, PartialEq, Eq, Debug)]
pub struct Rgba(pub [u8; 4]);

/// An RGBA image with 8 bits per channel: four bytes per pixel, rows top to bottom.
#[derive(Debug, Clone, PartialEq, Eq)]
pub struct Surface {
    pub width: u32,
    pub height: u32,
    pub pixels: Vec<u8>,
}

impl Surface {
    /// The buffer holds exactly the image's pixels.
    pub open spec fn wf(&self) -> bool {
        self.pixels@.len() == 4 * self.width * self.height
    }

    /// Channel `c` of the pixel at column `x`, row `y`.
    pub open spec fn at(&self, x: nat, y: nat, c: nat) -> u8 {
        self.pixels@[4 * (y * self.width + x) + c]
    }
}

/// Where the pixel at column `x`, row `y` of an image `w` pixels wide starts.
pub proof fn lemma_pixel_index(x: nat, y: nat, w: nat, c: nat, h: nat)
    requires
        x < w,
        y < h,
        c < 4,
    ensures
        4 * (y * w + x) + c < 4 * w * h,
        4 * (y * w + x) + 4 <= 4 * w * h,
{
    assert(y * w + x < w * h) by (nonlinear_arith)
        requires
            x < w,
            y < h,
    ;
    assert(4 * (w * h) == 4 * w * h) by (nonlinear_arith);
}

} // verus!
