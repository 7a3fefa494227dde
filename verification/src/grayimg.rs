//! A grayscale raster image held as a plain row-major pixel buffer,
//! one byte per pixel, with 0 for ink/black and 255 for background/white.

use vstd::prelude::*;
use crate::arith::{lemma_row_major_bound, lemma_row_major_inj, lemma_div_mod_id};

verus! {

/// A grayscale image of `width * height` pixels, stored row-major.
pub struct GrayImage {
    pub width: u32,
    pub height: u32,
    pub pixels: Vec<u8>,
}

/// The clipped extent of a crop that starts at `pos` and wants `want`
/// pixels out of `avail`.
pub open spec fn clip_len(pos: int, want: int, avail: int) -> int {
    if pos >= avail {
        0
    } else if pos + want <= avail {
        want
    } else {
        avail - pos
    }
}

impl GrayImage {
    /// The pixel buffer holds exactly `width * height` bytes.
    pub open spec fn wf(&self) -> bool {
        self.pixels@.len() == (self.width as nat) * (self.height as nat)
    }

    /// The pixels of the rectangle at `(x, y)` of size `w * h`, clipped to
    /// the image bounds, in row-major order.
    pub open spec fn spec_crop(&self, x: int, y: int, w: int, h: int) -> Seq<u8> {
        let tw = clip_len(x, w, self.width as int);
        let th = clip_len(y, h, self.height as int);
        Seq::new(
            (tw * th) as nat,
            |i: int| self.pixels@[(y + i / tw) * (self.width as int) + (x + i % tw)],
        )
    }

    /// An all-black (all-zero) image, the initial reconstruction canvas.
    pub fn new(width: u32, height: u32) -> (r: GrayImage)
        requires
            (width as nat) * (height as nat) <= usize::MAX as nat,
        ensures
            r.wf(),
            r.width == width,
            r.height == height,
            forall|i: int| 0 <= i < r.pixels@.len() ==> r.pixels@[i] == 0u8,
    {
        let n: usize = (width as usize) * (height as usize);
        let mut pixels: Vec<u8> = Vec::new();
        let mut i: usize = 0;
        while i < n
            invariant
                i <= n,
                pixels@.len() == i,
                forall|k: int| 0 <= k < i ==> pixels@[k] == 0u8,
            decreases n - i,
        {
            pixels.push(0u8);
            i = i + 1;
        }
        GrayImage { width, height, pixels }
    }

    /// Wraps a raw buffer, refusing one whose length does not match the
    /// dimensions.
    pub fn from_raw(width: u32, height: u32, pixels: Vec<u8>) -> (r: Option<GrayImage>)
        ensures
            match r {
                Some(img) => img.wf() && img.width == width && img.height == height
                    && img.pixels@ == pixels@,
                None => pixels@.len() != (width as nat) * (height as nat),
            },
    {
        proof {
            assert((width as int) * (height as int) <= u64::MAX as int) by (nonlinear_arith)
                requires
                    width <= u32::MAX,
                    height <= u32::MAX,
            ;
        }
        if pixels.len() as u64 == (width as u64) * (height as u64) {
            Some(GrayImage { width, height, pixels })
        } else {
            None
        }
    }

    /// Copies out the rectangle at `(x, y)` of size `w * h`, clipped at the
    /// image edges.
    #[verifier::loop_isolation(false)]
    pub fn crop_tile(&self, x: u32, y: u32, w: u32, h: u32) -> (r: Vec<u8>)
        requires
            self.wf(),
        ensures
            r@ == self.spec_crop(x as int, y as int, w as int, h as int),
    {
        proof {
            assert(self.pixels.len() <= usize::MAX);
        }
        let iw = self.width;
        let ih = self.height;
        let tw: u32 = if x >= iw {
            0
        } else if w <= iw - x {
            w
        } else {
            iw - x
        };
        let th: u32 = if y >= ih {
            0
        } else if h <= ih - y {
            h
        } else {
            ih - y
        };
        let mut out: Vec<u8> = Vec::new();
        let mut r: u32 = 0;
        while r < th
            invariant
                r <= th,
                out@.len() == (r as int) * (tw as int),
                forall|k: int| 0 <= k < out@.len() ==> out@[k] == self.pixels@[
                    ((y as int) + k / (tw as int)) * (self.width as int)
                        + ((x as int) + k % (tw as int))
                ],
            decreases th - r,
        {
            let mut c: u32 = 0;
            while c < tw
                invariant
                    r < th,
                    c <= tw,
                    out@.len() == (r as int) * (tw as int) + (c as int),
                    forall|k: int| 0 <= k < out@.len() ==> out@[k] == self.pixels@[
                        ((y as int) + k / (tw as int)) * (self.width as int)
                            + ((x as int) + k % (tw as int))
                    ],
                decreases tw - c,
            {
                proof {
                    lemma_row_major_bound((y + r) as int, (x + c) as int, iw as int, ih as int);
                    lemma_div_mod_id(r as int, c as int, tw as int);
                }
                let idx: usize = ((y + r) as usize) * (iw as usize) + ((x + c) as usize);
                out.push(self.pixels[idx]);
                c = c + 1;
            }
            proof {
                assert(((r as int) + 1) * (tw as int) == (r as int) * (tw as int) + (tw as int))
                    by (nonlinear_arith);
            }
            r = r + 1;
        }
        proof {
            broadcast use vstd::arithmetic::mul::lemma_mul_is_commutative;

            let g = self.spec_crop(x as int, y as int, w as int, h as int);
            assert(out@.len() == g.len());
            assert(out@ =~= g);
        }
        out
    }

    /// Overwrites the rectangle at `(x, y)` with the `bw * bh` bitmap `bmp`,
    /// clipped to the image bounds. Pixels outside the rectangle keep their
    /// value; covered pixels take the bitmap's value (opaque, no blending).
    #[verifier::loop_isolation(false)]
    pub fn overlay(&mut self, bmp: &Vec<u8>, bw: u32, bh: u32, x: u32, y: u32)
        requires
            old(self).wf(),
            bmp@.len() == (bw as nat) * (bh as nat),
        ensures
            final(self).wf(),
            final(self).width == old(self).width,
            final(self).height == old(self).height,
            forall|px: int, py: int|
                0 <= px < old(self).width && 0 <= py < old(self).height
                    ==> #[trigger] final(self).pixels@[py * (old(self).width as int) + px] == (
                    if x <= px < x + bw && y <= py < y + bh {
                    bmp@[(py - y) * (bw as int) + (px - x)]
                } else {
                    old(self).pixels@[py * (old(self).width as int) + px]
                }),
    {
        proof {
            assert(self.pixels.len() <= usize::MAX);
        }
        let iw = self.width;
        let ih = self.height;
        let cw: u32 = if x >= iw {
            0
        } else if bw <= iw - x {
            bw
        } else {
            iw - x
        };
        let ch: u32 = if y >= ih {
            0
        } else if bh <= ih - y {
            bh
        } else {
            ih - y
        };
        let mut lr: u32 = 0;
        while lr < ch
            invariant
                lr <= ch,
                self.wf(),
                self.width == old(self).width,
                self.height == old(self).height,
                forall|px: int, py: int|
                    0 <= px < iw && 0 <= py < ih ==> #[trigger] self.pixels@[py * (iw as int) + px]
                        == (if x <= px < x + cw && y <= py < y + lr {
                        bmp@[(py - y) * (bw as int) + (px - x)]
                    } else {
                        old(self).pixels@[py * (iw as int) + px]
                    }),
            decreases ch - lr,
        {
            let mut lc: u32 = 0;
            while lc < cw
                invariant
                    lr < ch,
                    lc <= cw,
                    self.wf(),
                    self.width == old(self).width,
                    self.height == old(self).height,
                    forall|px: int, py: int|
                        0 <= px < iw && 0 <= py < ih ==> #[trigger] self.pixels@[py * (iw as int)
                            + px] == (if x <= px < x + cw && y <= py && (py - y < lr || (py == y
                            + lr && x <= px < x + lc)) {
                            bmp@[(py - y) * (bw as int) + (px - x)]
                        } else {
                            old(self).pixels@[py * (iw as int) + px]
                        }),
                decreases cw - lc,
            {
                proof {
                    assert(bmp.len() <= usize::MAX);
                    lemma_row_major_bound((y + lr) as int, (x + lc) as int, iw as int, ih as int);
                    lemma_row_major_bound(lr as int, lc as int, bw as int, bh as int);
                }
                let idx: usize = ((y + lr) as usize) * (iw as usize) + ((x + lc) as usize);
                let bidx: usize = (lr as usize) * (bw as usize) + (lc as usize);
                let ghost prev = self.pixels@;
                self.pixels.set(idx, bmp[bidx]);
                proof {
                    assert forall|px: int, py: int| 0 <= px < iw && 0 <= py < ih implies #[trigger]
                        self.pixels@[py * (iw as int) + px] == (if x <= px < x + cw && y <= py && (
                        py - y < lr || (py == y + lr && x <= px < x + lc + 1)) {
                        bmp@[(py - y) * (bw as int) + (px - x)]
                    } else {
                        old(self).pixels@[py * (iw as int) + px]
                    }) by {
                        lemma_row_major_bound(py, px, iw as int, ih as int);
                        if py * (iw as int) + px == idx {
                            lemma_row_major_inj(
                                iw as int,
                                py,
                                px,
                                (y + lr) as int,
                                (x + lc) as int,
                            );
                        }
                    }
                }
                lc = lc + 1;
            }
            lr = lr + 1;
        }
        proof {
            assert forall|px: int, py: int| 0 <= px < iw && 0 <= py < ih implies #[trigger] self
                .pixels@[py * (iw as int) + px] == (if x <= px < x + bw && y <= py < y + bh {
                bmp@[(py - y) * (bw as int) + (px - x)]
            } else {
                old(self).pixels@[py * (iw as int) + px]
            }) by {
            }
        }
    }
}

} // verus!
