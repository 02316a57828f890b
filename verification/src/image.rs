//! An 8-bit three-channel image held as a flat, row-major byte buffer.
use vstd::prelude::*;

verus! {

/// Image buffer for pixel manipulation: `w × h` pixels of three bytes each, stored
/// row by row (OpenCV's BGR channel order for colour images, L, a, b for Lab images).
#[derive(Clone)]
pub struct BasedImage {
    /// Width in pixels.
    pub w: usize,
    /// Height in pixels.
    pub h: usize,
    /// Pixel bytes, three per pixel.
    pub data: Vec<u8>,
}

impl BasedImage {
    /// The buffer holds exactly three bytes for every pixel.
    pub open spec fn wf(&self) -> bool {
        self.data@.len() == self.w * self.h * 3
    }

    /// Number of pixels of a well-formed image.
    pub open spec fn pixel_count(&self) -> int {
        (self.data@.len() / 3) as int
    }

    /// Channel `c` of pixel `i` (pixels numbered row by row).
    pub open spec fn channel(&self, i: int, c: int) -> u8 {
        self.data@[3 * i + c]
    }
}

} // verus!
