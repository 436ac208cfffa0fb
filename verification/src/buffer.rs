//! The RGBA pixel buffer.
//!
//! An `ImgBuf` owns a row-major, top-left-origin grid of 8-bit RGBA samples,
//! four bytes per pixel, initialized to opaque white. Linear colors are
//! gamma-encoded at write time; the alpha byte is never touched after
//! initialization, so it stays 255 everywhere.

use vstd::prelude::*;

verus! {

use crate::color::LinearRGB;
use crate::transfer::spec_encode_byte;
use crate::transfer::srgb_encode_byte;

/// A width x height grid of RGBA bytes, 255-filled at construction.
pub struct ImgBuf {
    pub width: usize,
    pub height: usize,
    pub buf: Vec<u8>,
}

impl ImgBuf {
    /// The byte buffer holds exactly four bytes per pixel.
    pub open spec fn wf(self) -> bool {
        self.buf@.len() == self.width * self.height * 4
    }

    pub open spec fn spec_width(self) -> int {
        self.width as int
    }

    pub open spec fn spec_height(self) -> int {
        self.height as int
    }

    /// The stored bytes, the view the contracts speak of.
    pub open spec fn spec_data(self) -> Seq<u8> {
        self.buf@
    }

    /// The byte offset of the red sample of pixel `(x, y)`.
    pub open spec fn pixel_base(self, x: int, y: int) -> int {
        (y * self.width + x) * 4
    }

    /// Allocates a `width` x `height` buffer with every byte 255:
    /// opaque white.
    pub fn new(width: usize, height: usize) -> (b: ImgBuf)
        requires
            width * height * 4 <= usize::MAX,
        ensures
            b.wf(),
            b.spec_width() == width,
            b.spec_height() == height,
            b.spec_data().len() == width * height * 4,
            forall|i: int| 0 <= i < b.spec_data().len() ==> b.spec_data()[i] == 255,
    {
        proof {
            assert(width * height <= width * height * 4) by (nonlinear_arith)
                requires 0 <= width * height;
            assert(0 <= width * height) by (nonlinear_arith)
                requires width >= 0 && height >= 0;
        }
        let n: usize = width * height * 4;
        let mut buf: Vec<u8> = Vec::new();
        while buf.len() < n
            invariant
                buf@.len() <= n,
                forall|i: int| 0 <= i < buf@.len() ==> buf@[i] == 255,
            decreases n - buf@.len(),
        {
            buf.push(255);
        }
        ImgBuf { width, height, buf }
    }

    pub fn width(&self) -> (w: usize)
        ensures
            w == self.spec_width(),
    {
        self.width
    }

    pub fn height(&self) -> (h: usize)
        ensures
            h == self.spec_height(),
    {
        self.height
    }

    /// The finished byte buffer, ready for 8-bit RGBA raster encoding.
    pub fn data(&self) -> (d: &Vec<u8>)
        ensures
            d@ == self.spec_data(),
    {
        &self.buf
    }

    /// Gamma-encodes `color` and writes its three channel bytes to pixel
    /// `(x, y)`, leaving the alpha byte and every other pixel untouched.
    /// Coordinates must be in range: the buffer never performs an
    /// out-of-bounds write, callers guarantee the bound by contract.
    pub fn set_pixel(&mut self, x: usize, y: usize, color: LinearRGB)
        requires
            old(self).wf(),
            x < old(self).spec_width(),
            y < old(self).spec_height(),
            color.wf(),
        ensures
            final(self).wf(),
            final(self).spec_width() == old(self).spec_width(),
            final(self).spec_height() == old(self).spec_height(),
            final(self).spec_data().len() == old(self).spec_data().len(),
            final(self).spec_data()[old(self).pixel_base(x as int, y as int)]
                == spec_encode_byte(color.r as int),
            final(self).spec_data()[old(self).pixel_base(x as int, y as int) + 1]
                == spec_encode_byte(color.g as int),
            final(self).spec_data()[old(self).pixel_base(x as int, y as int) + 2]
                == spec_encode_byte(color.b as int),
            forall|i: int|
                0 <= i < final(self).spec_data().len()
                    && i != old(self).pixel_base(x as int, y as int)
                    && i != old(self).pixel_base(x as int, y as int) + 1
                    && i != old(self).pixel_base(x as int, y as int) + 2
                    ==> final(self).spec_data()[i] == old(self).spec_data()[i],
    {
        let n: usize = self.buf.len();
        proof {
            assert(y * self.width + x < self.width * self.height) by (nonlinear_arith)
                requires x < self.width && y < self.height && x >= 0 && y >= 0;
            assert((y * self.width + x) * 4 + 3 < self.width * self.height * 4)
                by (nonlinear_arith)
                requires y * self.width + x < self.width * self.height;
        }
        let ix: usize = (y * self.width + x) * 4;
        self.buf.set(ix, srgb_encode_byte(color.r));
        self.buf.set(ix + 1, srgb_encode_byte(color.g));
        self.buf.set(ix + 2, srgb_encode_byte(color.b));
    }
}

} // verus!
