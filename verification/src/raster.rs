//! A 2D raster image: RGBA8 pixels that coverage masks composite onto.
//!
//! Pixels are stored premultiplied: each color channel already carries its
//! alpha weight, which lets the `over` operator blend every channel by one
//! integer formula with no division by alpha.

use crate::mask::Mask;
use vstd::arithmetic::div_mod::lemma_div_is_ordered;
use vstd::prelude::*;

verus! {

/// One channel of the `over` operator: the source channel scaled by the
/// source alpha, plus the destination scaled by what that alpha leaves,
/// rounded to the nearest byte.
pub open spec fn blend_ch_spec(src: int, a_s: int, dst: int) -> int {
    (src * a_s + dst * (255 - a_s) + 127) / 255
}

/// The source alpha of a composite at one pixel: the color's alpha scaled
/// by the pixel's coverage, rounded down.
pub open spec fn src_alpha_spec(m: int, ca: int) -> int {
    (m * ca) / 255
}

/// Alpha left after cutting coverage `m` out.
pub open spec fn cut_alpha_spec(dst: int, m: int) -> int {
    if dst - m < 0 {
        0
    } else {
        dst - m
    }
}

/// Byte index of channel `ch` of pixel `i`.
pub open spec fn pix(i: int, ch: int) -> int {
    i * 4 + ch
}

/// A raster image to composite plot output onto.
pub struct Raster {
    pub width: u32,
    pub height: u32,
    pub pixels: Vec<u8>,
}

impl Raster {
    pub open spec fn wf(&self) -> bool {
        self.width <= 0x4000 && self.height <= 0x4000 && self.pixels@.len() == (
        self.width as int) * (self.height as int) * 4
    }

    /// A new raster image, all pixels transparent black.
    pub fn new(width: u32, height: u32) -> (r: Raster)
        requires
            width <= 0x4000,
            height <= 0x4000,
        ensures
            r.wf(),
            r.width == width,
            r.height == height,
            forall|i: int| 0 <= i < r.pixels@.len() ==> r.pixels@[i] == 0u8,
    {
        proof {
            assert(width as int * height as int * 4 <= 0x4000_0000) by (nonlinear_arith)
                requires width <= 0x4000u32 && height <= 0x4000u32;
        }
        let n: usize = (width as usize) * (height as usize) * 4;
        let mut pixels: Vec<u8> = Vec::new();
        let mut i: usize = 0;
        while i < n
            invariant
                i <= n,
                pixels@.len() == i as int,
                forall|k: int| 0 <= k < i as int ==> pixels@[k] == 0u8,
            decreases n - i,
        {
            pixels.push(0u8);
            i = i + 1;
        }
        Raster { width, height, pixels }
    }

    /// Zero every pixel.
    pub fn clear(&mut self)
        requires
            old(self).wf(),
        ensures
            final(self).wf(),
            final(self).width == old(self).width,
            final(self).height == old(self).height,
            forall|i: int|
                0 <= i < final(self).pixels@.len() ==> final(self).pixels@[i] == 0u8,
    {
        let n = self.pixels.len();
        let mut i: usize = 0;
        while i < n
            invariant
                i <= n,
                self.width == old(self).width,
                self.height == old(self).height,
                self.pixels@.len() == n as int,
                forall|k: int| 0 <= k < i as int ==> self.pixels@[k] == 0u8,
            decreases n - i,
        {
            self.pixels.set(i, 0u8);
            i = i + 1;
        }
    }

    /// Composite a color onto the raster through a coverage mask.
    ///
    /// At every pixel the color's alpha is scaled by the mask's coverage
    /// and the color, taken premultiplied with full alpha in its fourth
    /// channel, blends `over` the existing pixel.
    pub fn composite(&mut self, mask: &Mask, clr: [u8; 4])
        requires
            old(self).wf(),
            mask.wf(),
            mask.width == old(self).width,
            mask.height == old(self).height,
        ensures
            final(self).wf(),
            final(self).width == old(self).width,
            final(self).height == old(self).height,
            forall|i: int, ch: int|
                0 <= i < mask.pixels@.len() && 0 <= ch < 4
                    ==> final(self).pixels@[#[trigger] pix(i, ch)] as int == blend_ch_spec(
                    if ch == 3 {
                        255
                    } else {
                        clr@[ch] as int
                    },
                    src_alpha_spec(mask.pixels@[i] as int, clr@[3] as int),
                    old(self).pixels@[pix(i, ch)] as int,
                ),
    {
        let n = mask.pixels.len();
        proof {
            assert(mask.width as int * mask.height as int * 4 == (mask.width as int
                * mask.height as int) * 4) by (nonlinear_arith);
        }
        let mut i: usize = 0;
        while i < n
            invariant
                self.width == old(self).width,
                self.height == old(self).height,
                self.pixels@.len() == old(self).pixels@.len(),
                n == mask.pixels@.len(),
                n as int * 4 == self.pixels@.len(),
                mask.wf(),
                i <= n,
                forall|k: int, ch: int|
                    0 <= k < i as int && 0 <= ch < 4 ==> self.pixels@[#[trigger] pix(k, ch)] as int
                        == blend_ch_spec(
                        if ch == 3 {
                            255
                        } else {
                            mask_clr(clr@, ch)
                        },
                        src_alpha_spec(mask.pixels@[k] as int, clr@[3] as int),
                        old(self).pixels@[pix(k, ch)] as int,
                    ),
                forall|j: int|
                    i as int * 4 <= j < self.pixels@.len() ==> self.pixels@[j] == old(
                        self,
                    ).pixels@[j],
            decreases n - i,
        {
            let m = mask.pixels[i] as u32;
            proof {
                assert(m as int * (clr@[3] as int) <= 65025 && m as int * (clr@[3] as int) >= 0)
                    by (nonlinear_arith)
                    requires m <= 255 && clr@[3] <= 255;
                lemma_div_is_ordered(m as int * (clr@[3] as int), 65025, 255);
                assert(65025int / 255 == 255);
            }
            let a_s = (m * (clr[3] as u32)) / 255;
            let np = self.pixels.len();
            proof {
                assert(i as int * 4 + 4 <= np as int);
            }
            let base = i * 4;
            let p0 = blend_ch(clr[0] as u32, a_s, self.pixels[base] as u32);
            let p1 = blend_ch(clr[1] as u32, a_s, self.pixels[base + 1] as u32);
            let p2 = blend_ch(clr[2] as u32, a_s, self.pixels[base + 2] as u32);
            let p3 = blend_ch(255u32, a_s, self.pixels[base + 3] as u32);
            self.pixels.set(base, p0);
            self.pixels.set(base + 1, p1);
            self.pixels.set(base + 2, p2);
            self.pixels.set(base + 3, p3);
            proof {
                assert forall|k: int, ch: int|
                    0 <= k < i as int + 1 && 0 <= ch < 4 implies self.pixels@[#[trigger] pix(k, ch)] as int
                    == blend_ch_spec(
                    if ch == 3 {
                        255
                    } else {
                        mask_clr(clr@, ch)
                    },
                    src_alpha_spec(mask.pixels@[k] as int, clr@[3] as int),
                    old(self).pixels@[pix(k, ch)] as int,
                ) by {
                    assert(k * 4 + ch < k * 4 + 4 && (k + 1) * 4 == k * 4 + 4);
                    if k < i as int {
                        assert(k * 4 + 4 <= i as int * 4);
                    }
                }
            }
            i = i + 1;
        }
    }

    /// Cut a mask out of the raster: subtract a mask-weighted black and
    /// alpha contribution, leaving color channels and reducing alpha by
    /// the coverage, saturating at zero.
    pub fn cut(&mut self, mask: &Mask)
        requires
            old(self).wf(),
            mask.wf(),
            mask.width == old(self).width,
            mask.height == old(self).height,
        ensures
            final(self).wf(),
            final(self).width == old(self).width,
            final(self).height == old(self).height,
            forall|i: int, ch: int|
                0 <= i < mask.pixels@.len() && 0 <= ch < 3 ==> final(self).pixels@[#[trigger] pix(i, ch)] == old(self).pixels@[pix(i, ch)],
            forall|i: int|
                0 <= i < mask.pixels@.len() ==> final(self).pixels@[#[trigger] pix(i, 3)] as int
                    == cut_alpha_spec(
                    old(self).pixels@[pix(i, 3)] as int,
                    mask.pixels@[i] as int,
                ),
    {
        let n = mask.pixels.len();
        proof {
            assert(mask.width as int * mask.height as int * 4 == (mask.width as int
                * mask.height as int) * 4) by (nonlinear_arith);
        }
        let mut i: usize = 0;
        while i < n
            invariant
                self.width == old(self).width,
                self.height == old(self).height,
                self.pixels@.len() == old(self).pixels@.len(),
                n == mask.pixels@.len(),
                n as int * 4 == self.pixels@.len(),
                mask.wf(),
                i <= n,
                forall|k: int, ch: int|
                    0 <= k < i as int && 0 <= ch < 3 ==> self.pixels@[#[trigger] pix(k, ch)] == old(
                        self,
                    ).pixels@[pix(k, ch)],
                forall|k: int|
                    0 <= k < i as int ==> self.pixels@[#[trigger] pix(k, 3)] as int == cut_alpha_spec(
                        old(self).pixels@[pix(k, 3)] as int,
                        mask.pixels@[k] as int,
                    ),
                forall|j: int|
                    i as int * 4 <= j < self.pixels@.len() ==> self.pixels@[j] == old(
                        self,
                    ).pixels@[j],
            decreases n - i,
        {
            let m = mask.pixels[i];
            let np = self.pixels.len();
            proof {
                assert(i as int * 4 + 4 <= np as int);
            }
            let base = i * 4;
            let a = self.pixels[base + 3];
            let na = if a >= m {
                a - m
            } else {
                0
            };
            self.pixels.set(base + 3, na);
            proof {
                assert forall|k: int, ch: int|
                    0 <= k < i as int + 1 && 0 <= ch < 3 implies self.pixels@[#[trigger] pix(k, ch)]
                    == old(self).pixels@[pix(k, ch)] by {
                    assert(k * 4 + ch < k * 4 + 3 + 1 && (k + 1) * 4 == k * 4 + 4);
                    if k < i as int {
                        assert(k * 4 + 4 <= i as int * 4);
                    }
                }
                assert forall|k: int| 0 <= k < i as int + 1 implies self.pixels@[#[trigger] pix(
                    k,
                    3,
                )] as int == cut_alpha_spec(
                    old(self).pixels@[pix(k, 3)] as int,
                    mask.pixels@[k] as int,
                ) by {
                    assert((k + 1) * 4 == k * 4 + 4);
                    if k < i as int {
                        assert(k * 4 + 4 <= i as int * 4);
                    }
                }
            }
            i = i + 1;
        }
    }

    /// The image dimensions and its RGBA8 bytes, row major.
    pub fn get_pixels(&self) -> (r: (u32, u32, &Vec<u8>))
        ensures
            r.0 == self.width,
            r.1 == self.height,
            r.2@ == self.pixels@,
    {
        (self.width, self.height, &self.pixels)
    }
}

/// Color channel `ch` of a composite color.
pub open spec fn mask_clr(clr: Seq<u8>, ch: int) -> int {
    clr[ch] as int
}

/// One blended channel, in bytes.
fn blend_ch(src: u32, a_s: u32, dst: u32) -> (r: u8)
    requires
        src <= 255,
        a_s <= 255,
        dst <= 255,
    ensures
        r as int == blend_ch_spec(src as int, a_s as int, dst as int),
{
    proof {
        assert(src as int * a_s as int <= 65025 && src as int * a_s as int >= 0 && dst as int * (
        255 - a_s as int) <= 65025 && dst as int * (255 - a_s as int) >= 0)
            by (nonlinear_arith)
            requires src <= 255 && a_s <= 255 && dst <= 255;
        assert(src as int * a_s as int + dst as int * (255 - a_s as int) + 127 <= 255 * 255
            + 127) by (nonlinear_arith)
            requires src <= 255 && a_s <= 255 && dst <= 255;
        lemma_div_is_ordered(
            src as int * a_s as int + dst as int * (255 - a_s as int) + 127,
            255int * 255 + 127,
            255,
        );
        assert((255int * 255 + 127) / 255 == 255);
        lemma_div_is_ordered(
            0,
            src as int * a_s as int + dst as int * (255 - a_s as int) + 127,
            255,
        );
    }
    let num = src * a_s + dst * (255 - a_s) + 127;
    ((num) / 255) as u8
}

/// Compositing a color through zero coverage and cutting the same
/// coverage out again leaves a pixel exactly as it was.
pub proof fn lemma_composite_cut_restores(src: int, ca: int, dst: int, dsta: int, m: int)
    requires
        m == 0,
        0 <= src <= 255,
        0 <= ca <= 255,
        0 <= dst <= 255,
        0 <= dsta <= 255,
    ensures
        blend_ch_spec(src, src_alpha_spec(m, ca), dst) == dst,
        cut_alpha_spec(blend_ch_spec(255, src_alpha_spec(m, ca), dsta), m) == dsta,
{
    assert(src_alpha_spec(0, ca) == 0) by {
        assert(0 * ca == 0) by (nonlinear_arith);
        assert(0int / 255 == 0);
    }
    assert(src * 0 == 0 && dst * 255 == 255 * dst && dsta * 255 == 255 * dsta)
        by (nonlinear_arith);
    assert((dst * 255 + 127) / 255 == dst) by {
        vstd::arithmetic::div_mod::lemma_fundamental_div_mod_converse(
            dst * 255 + 127,
            255,
            dst,
            127,
        );
    }
    assert((dsta * 255 + 127) / 255 == dsta) by {
        vstd::arithmetic::div_mod::lemma_fundamental_div_mod_converse(
            dsta * 255 + 127,
            255,
            dsta,
            127,
        );
    }
}

} // verus!
