//! The pixel grid that the tracer consumes: RGB colors plus a parallel
//! "checked" (visited) flag per pixel.

use vstd::prelude::*;

verus! {

/// A pixel coordinate, `(x, y)`.
pub type Coords = (u16, u16);

/// The luma tolerance under which two pixels count as the same color.
pub const RGB_DIFFERENCE: u8 = 3;

/// An RGB color.
#[derive(Clone, Copy, Debug, PartialEq, Eq, Structural)]
pub struct Rgb(pub u8, pub u8, pub u8);

/// Average luma of a color, with integer truncation.
pub open spec fn luma(c: Rgb) -> int {
    (c.0 + c.1 + c.2) / 3
}

/// Whether two colors are similar: their average lumas differ by at most
/// the fixed tolerance.
pub open spec fn similar(a: Rgb, b: Rgb) -> bool {
    -(RGB_DIFFERENCE as int) <= luma(a) - luma(b) <= RGB_DIFFERENCE as int
}

/// A raster image of `width * height` RGB pixels in row-major order, each
/// carrying a flag that records whether the tracer has examined it.
pub struct Image {
    pub width: u16,
    pub height: u16,
    pub pixels: Vec<Rgb>,
    pub checked_pixels: Vec<bool>,
}

/// Row-major index of the pixel at `(x, y)` in a grid `w` pixels wide.
pub open spec fn pix_idx(w: int, x: int, y: int) -> int {
    x + y * w
}

impl Image {
    /// Both parallel arrays cover exactly the `width * height` grid.
    pub open spec fn wf(self) -> bool {
        &&& self.pixels@.len() == self.width * self.height
        &&& self.checked_pixels@.len() == self.width * self.height
    }

    pub open spec fn spec_color_at(self, x: int, y: int) -> Rgb {
        self.pixels@[pix_idx(self.width as int, x, y)]
    }

    pub open spec fn spec_checked_at(self, x: int, y: int) -> bool {
        self.checked_pixels@[pix_idx(self.width as int, x, y)]
    }

    pub open spec fn spec_in_bounds(self, x: int, y: int) -> bool {
        0 <= x < self.width && 0 <= y < self.height
    }

    /// A fresh grid: every pixel unchecked.
    pub fn new(width: u16, height: u16, pixels: Vec<Rgb>) -> (r: Self)
        requires
            pixels@.len() == width * height,
        ensures
            r.wf(),
            r.width == width,
            r.height == height,
            r.pixels == pixels,
            forall|i: int| 0 <= i < r.checked_pixels@.len() ==> !r.checked_pixels@[i],
    {
        let n: usize = pixels.len();
        let mut checked_pixels: Vec<bool> = Vec::new();
        let mut i: usize = 0;
        while i < n
            invariant
                i <= n,
                checked_pixels@.len() == i,
                forall|j: int| 0 <= j < i ==> !checked_pixels@[j],
            decreases n - i,
        {
            checked_pixels.push(false);
            i = i + 1;
        }
        Image { width, height, pixels, checked_pixels }
    }

    /// Row-major index of a coordinate pair.
    pub fn get_pixel_index(&self, coords: Coords) -> (r: usize)
        requires
            self.wf(),
            self.spec_in_bounds(coords.0 as int, coords.1 as int),
        ensures
            r == pix_idx(self.width as int, coords.0 as int, coords.1 as int),
            r < self.pixels@.len(),
    {
        let (x, y) = coords;
        proof {
            lemma_pix_idx_in_range(self.width as int, self.height as int, x as int, y as int);
            assert((self.width as int) * (self.height as int) <= 0xfffe0001) by (nonlinear_arith)
                requires self.width <= 0xffff && self.height <= 0xffff,
            ;
        }
        x as usize + y as usize * self.width as usize
    }

    /// The color at a coordinate.
    pub fn get_pixel(&self, coords: Coords) -> (r: Rgb)
        requires
            self.wf(),
            self.spec_in_bounds(coords.0 as int, coords.1 as int),
        ensures
            r == self.spec_color_at(coords.0 as int, coords.1 as int),
    {
        let i = self.get_pixel_index(coords);
        self.pixels[i]
    }

    /// Whether a coordinate lies inside the grid.
    pub fn is_valid_coords(&self, coords: Coords) -> (r: bool)
        ensures
            r == self.spec_in_bounds(coords.0 as int, coords.1 as int),
    {
        let (x, y) = coords;
        x < self.width && y < self.height
    }

    /// Whether the tracer has already examined this pixel.
    pub fn pixel_is_checked(&self, coords: Coords) -> (r: bool)
        requires
            self.wf(),
            self.spec_in_bounds(coords.0 as int, coords.1 as int),
        ensures
            r == self.spec_checked_at(coords.0 as int, coords.1 as int),
    {
        let i = self.get_pixel_index(coords);
        self.checked_pixels[i]
    }

    /// Sets the examined flag of one pixel, leaving everything else intact.
    pub fn set_pixel_is_checked(&mut self, coords: Coords, is_checked: bool)
        requires
            old(self).wf(),
            old(self).spec_in_bounds(coords.0 as int, coords.1 as int),
        ensures
            final(self).wf(),
            final(self).width == old(self).width,
            final(self).height == old(self).height,
            final(self).pixels == old(self).pixels,
            final(self).checked_pixels@ == old(self).checked_pixels@.update(
                pix_idx(old(self).width as int, coords.0 as int, coords.1 as int),
                is_checked,
            ),
    {
        let i = self.get_pixel_index(coords);
        self.checked_pixels.set(i, is_checked);
    }

    /// Whether the pixels at two coordinates are similar in color.
    pub fn compare_pixels(&self, a_coords: Coords, b_coords: Coords) -> (r: bool)
        requires
            self.wf(),
            self.spec_in_bounds(a_coords.0 as int, a_coords.1 as int),
            self.spec_in_bounds(b_coords.0 as int, b_coords.1 as int),
        ensures
            r == similar(
                self.spec_color_at(a_coords.0 as int, a_coords.1 as int),
                self.spec_color_at(b_coords.0 as int, b_coords.1 as int),
            ),
    {
        let a = self.get_pixel(a_coords);
        let b = self.get_pixel(b_coords);

        let a_avg: u16 = (a.0 as u16 + a.1 as u16 + a.2 as u16) / 3;
        let b_avg: u16 = (b.0 as u16 + b.1 as u16 + b.2 as u16) / 3;

        let diff: i32 = if a_avg >= b_avg {
            a_avg as i32 - b_avg as i32
        } else {
            b_avg as i32 - a_avg as i32
        };
        diff <= RGB_DIFFERENCE as i32
    }
}

/// Distinct in-bounds coordinates index distinct pixels.
pub proof fn lemma_pix_idx_injective(w: int, h: int, x1: int, y1: int, x2: int, y2: int)
    requires
        0 <= x1 < w,
        0 <= y1 < h,
        0 <= x2 < w,
        0 <= y2 < h,
        x1 != x2 || y1 != y2,
    ensures
        pix_idx(w, x1, y1) != pix_idx(w, x2, y2),
{
    assert(x1 + y1 * w != x2 + y2 * w) by (nonlinear_arith)
        requires
            0 <= x1 < w,
            0 <= x2 < w,
            x1 != x2 || y1 != y2,
    ;
}

/// A coordinate inside the grid indexes inside the pixel array.
pub proof fn lemma_pix_idx_in_range(w: int, h: int, x: int, y: int)
    requires
        0 <= x < w,
        0 <= y < h,
    ensures
        0 <= pix_idx(w, x, y) < w * h,
{
    assert(x + y * w < w * h) by (nonlinear_arith)
        requires 0 <= x < w, 0 <= y < h,
    ;
    assert(0 <= x + y * w) by (nonlinear_arith)
        requires 0 <= x, 0 <= y, 0 < w,
    ;
}

} // verus!
