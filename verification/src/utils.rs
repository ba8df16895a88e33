//! The raster canvas the renderer draws onto.

use crate::s7_image::{pix_idx, Rgb};
use vstd::prelude::*;

verus! {

/// The background color of a fresh canvas: white.
pub open spec fn white() -> Rgb {
    Rgb(255, 255, 255)
}

/// A plain raster of `width * height` RGB pixels in row-major order.
pub struct Raster {
    pub width: u16,
    pub height: u16,
    pub pixels: Vec<Rgb>,
}

impl Raster {
    pub open spec fn wf(self) -> bool {
        self.pixels@.len() == self.width * self.height
    }

    pub open spec fn spec_pixel(self, x: int, y: int) -> Rgb {
        self.pixels@[pix_idx(self.width as int, x, y)]
    }

    /// Overwrites the pixel at `(x, y)`.
    pub fn set_pixel(&mut self, x: u16, y: u16, color: Rgb)
        requires
            old(self).wf(),
            x < old(self).width,
            y < old(self).height,
        ensures
            final(self).wf(),
            final(self).width == old(self).width,
            final(self).height == old(self).height,
            final(self).spec_pixel(x as int, y as int) == color,
            forall|i: int, j: int|
                0 <= i < old(self).width && 0 <= j < old(self).height && (i != x || j != y)
                    ==> final(self).spec_pixel(i, j) == old(self).spec_pixel(i, j),
    {
        proof {
            crate::s7_image::lemma_pix_idx_in_range(
                self.width as int,
                self.height as int,
                x as int,
                y as int,
            );
            assert((self.width as int) * (self.height as int) <= 0xfffe0001) by (nonlinear_arith)
                requires self.width <= 0xffff && self.height <= 0xffff,
            ;
        }
        let i: usize = x as usize + y as usize * self.width as usize;
        self.pixels.set(i, color);
        proof {
            assert forall|i2: int, j2: int|
                0 <= i2 < old(self).width && 0 <= j2 < old(self).height && (i2 != x as int
                    || j2 != y as int) implies final(self).spec_pixel(i2, j2) == old(
                self,
            ).spec_pixel(i2, j2) by {
                crate::s7_image::lemma_pix_idx_in_range(
                    self.width as int,
                    self.height as int,
                    i2,
                    j2,
                );
                crate::s7_image::lemma_pix_idx_injective(
                    self.width as int,
                    self.height as int,
                    i2,
                    j2,
                    x as int,
                    y as int,
                );
            }
        }
    }
}

/// A fresh white canvas of the given size.
pub fn blank_image(width: u16, height: u16) -> (r: Raster)
    ensures
        r.wf(),
        r.width == width,
        r.height == height,
        forall|x: int, y: int|
            0 <= x < width && 0 <= y < height ==> r.spec_pixel(x, y) == white(),
{
    proof {
        assert((width as int) * (height as int) <= 0xfffe0001) by (nonlinear_arith)
            requires width <= 0xffff && height <= 0xffff,
        ;
    }
    let n: usize = width as usize * height as usize;
    let mut pixels: Vec<Rgb> = Vec::new();
    let mut i: usize = 0;
    while i < n
        invariant
            i <= n,
            pixels@.len() == i,
            forall|j: int| 0 <= j < i ==> pixels@[j] == white(),
        decreases n - i,
    {
        pixels.push(Rgb(255, 255, 255));
        i = i + 1;
    }
    let r = Raster { width, height, pixels };
    proof {
        assert forall|x: int, y: int|
            0 <= x < width && 0 <= y < height implies r.spec_pixel(x, y) == white() by {
            crate::s7_image::lemma_pix_idx_in_range(width as int, height as int, x, y);
        }
    }
    r
}

} // verus!
