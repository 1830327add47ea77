//! The coverage mask: one anti-aliasing weight byte per pixel.

use vstd::prelude::*;

verus! {

/// Largest mask or raster dimension, in pixels.
pub const MAX_DIM: u32 = 16384;

/// A `width x height` buffer of coverage values, row major, one byte per
/// pixel.  Coverage persists across fills until [`Mask::clear`] is called,
/// so several passes can compose additively.
pub struct Mask {
    pub width: u32,
    pub height: u32,
    pub pixels: Vec<u8>,
}

pub open spec fn dim_ok(d: u32) -> bool {
    1 <= d <= MAX_DIM
}

impl Mask {
    pub open spec fn wf(&self) -> bool {
        dim_ok(self.width) && dim_ok(self.height) && self.pixels@.len() == (
        self.width as int) * (self.height as int)
    }

    /// A cleared mask of the given dimensions.
    pub fn new(width: u32, height: u32) -> (m: Mask)
        requires
            dim_ok(width),
            dim_ok(height),
        ensures
            m.wf(),
            m.width == width,
            m.height == height,
            forall|i: int| 0 <= i < m.pixels@.len() ==> m.pixels@[i] == 0u8,
    {
        proof {
            assert(width as int * height as int <= 0x1000_0000) by (nonlinear_arith)
                requires 1 <= width <= 0x4000u32 && 1 <= height <= 0x4000u32;
        }
        let n: usize = (width as usize) * (height as usize);
        let mut pixels: Vec<u8> = Vec::new();
        let mut i: usize = 0;
        while i < n
            invariant
                i <= n,
                pixels@.len() == i as int,
                forall|k: int| 0 <= k < i as int ==> pixels@[k] == 0u8,
            decreases n - i,
        {
            pixels.push(0u8);
            i = i + 1;
        }
        Mask { width, height, pixels }
    }

    /// Zero every coverage byte.
    pub fn clear(&mut self)
        requires
            old(self).wf(),
        ensures
            final(self).wf(),
            final(self).width == old(self).width,
            final(self).height == old(self).height,
            forall|i: int|
                0 <= i < final(self).pixels@.len() ==> final(self).pixels@[i] == 0u8,
    {
        let n = self.pixels.len();
        let mut i: usize = 0;
        while i < n
            invariant
                i <= n,
                self.width == old(self).width,
                self.height == old(self).height,
                self.pixels@.len() == n as int,
                forall|k: int| 0 <= k < i as int ==> self.pixels@[k] == 0u8,
            decreases n - i,
        {
            self.pixels.set(i, 0u8);
            i = i + 1;
        }
    }

    /// Read one coverage byte; `i` indexes row major.
    pub fn coverage(&self, i: usize) -> (v: u8)
        requires
            i < self.pixels@.len(),
        ensures
            v == self.pixels@[i as int],
    {
        self.pixels[i]
    }

    /// All coverage bytes, row major.
    pub fn bytes(&self) -> (v: &Vec<u8>)
        ensures
            v@ == self.pixels@,
    {
        &self.pixels
    }
}

} // verus!
