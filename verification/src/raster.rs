use vstd::prelude::*;

use crate::color::Color;
use crate::color::Rgba;

verus! {

/// An immutable rectangular grid of pixel colors, stored row-major:
/// the pixel at column x, row y sits at index y * width + x.
pub struct Image {
    pub width: usize,
    pub height: usize,
    pub pixels: Vec<Color>,
}

impl Image {
    /// A well-formed image stores exactly width * height pixel colors, and
    /// each dimension fits in 32 bits, as raster dimensions do.
    pub open spec fn wf(self) -> bool {
        &&& self.pixels@.len() == self.width * self.height
        &&& self.width <= 0xffff_ffff
        &&& self.height <= 0xffff_ffff
    }

    /// Builds an image from its dimensions and row-major pixels; yields None
    /// exactly when the dimensions are oversized or do not match the pixel
    /// count.
    pub fn new(width: usize, height: usize, pixels: Vec<Color>) -> (r: Option<Image>)
        ensures
            (r is Some) <==> (width <= 0xffff_ffff && height <= 0xffff_ffff && pixels@.len()
                == width * height),
            r matches Some(img) ==> img.width == width && img.height == height && img.pixels@
                == pixels@ && img.wf(),
    {
        let len = pixels.len();
        if width > 0xffff_ffff || height > 0xffff_ffff {
            return None;
        }
        match width.checked_mul(height) {
            Some(n) => {
                if len == n {
                    Some(Image { width, height, pixels })
                } else {
                    None
                }
            },
            None => None,
        }
    }
}

/// An output grid of rendered pixels, stored row-major like `Image`, with an
/// alpha channel on every pixel.
pub struct RenderedImage {
    pub width: usize,
    pub height: usize,
    pub pixels: Vec<Rgba>,
}

impl RenderedImage {
    /// A well-formed rendering stores exactly width * height pixels.
    pub open spec fn wf(self) -> bool {
        self.pixels@.len() == self.width * self.height
    }
}

} // verus!
