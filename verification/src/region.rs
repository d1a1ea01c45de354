//! Half-open pixel rectangles and the offsets of their pixels in a row-major
//! buffer.

use vstd::arithmetic::div_mod::{
    lemma_div_pos_is_pos,
    lemma_fundamental_div_mod,
    lemma_fundamental_div_mod_converse,
    lemma_mod_bound,
};
use vstd::prelude::*;

verus! {

/// A half-open rectangle of pixels: the columns `l <= x < r` and the rows
/// `b <= y < t`.
#[derive(Clone, Copy, PartialEq, Eq, Structural, Debug)]
pub struct ImageRegion {
    pub l: u16,
    pub t: u16,
    pub r: u16,
    pub b: u16,
}

impl ImageRegion {
    /// The edges are in order, so that width and height are not negative.
    pub open spec fn wf(&self) -> bool {
        self.l <= self.r && self.b <= self.t
    }

    pub open spec fn spec_width(&self) -> int {
        self.r - self.l
    }

    pub open spec fn spec_height(&self) -> int {
        self.t - self.b
    }

    pub open spec fn spec_area(&self) -> int {
        self.spec_width() * self.spec_height()
    }

    /// The pixel `(x, y)` lies inside the rectangle.
    pub open spec fn covers(&self, x: int, y: int) -> bool {
        self.l <= x < self.r && self.b <= y < self.t
    }

    /// Every edge of `o` lies within the edges of `self`.
    pub open spec fn spec_contains(&self, o: &ImageRegion) -> bool {
        o.l >= self.l && o.b >= self.b && o.t <= self.t && o.r <= self.r
    }

    /// Row-major position of the pixel `(x, y)`, counted from the rectangle's
    /// own corner `(l, b)`.
    pub open spec fn spec_buffer_offset(&self, x: int, y: int) -> int {
        (y - self.b) * self.spec_width() + (x - self.l)
    }

    /// The pixel that is stored at row-major position `ofs`: what
    /// `spec_buffer_offset` maps to `ofs`.
    pub open spec fn spec_pixel_at(&self, ofs: int) -> (int, int) {
        (self.l + ofs % self.spec_width(), self.b + ofs / self.spec_width())
    }

    /// Position of channel `c` of the pixel `(x, y)` in a buffer that holds
    /// four bytes for each pixel.
    pub open spec fn spec_byte_index(&self, x: int, y: int, c: int) -> int {
        4 * self.spec_buffer_offset(x, y) + c
    }

    pub fn width(&self) -> (w: u16)
        requires
            self.wf(),
        ensures
            w == self.spec_width(),
    {
        self.r - self.l
    }

    pub fn height(&self) -> (h: u16)
        requires
            self.wf(),
        ensures
            h == self.spec_height(),
    {
        self.t - self.b
    }

    pub fn area(&self) -> (a: usize)
        requires
            self.wf(),
        ensures
            a == self.spec_area(),
    {
        let w: usize = self.width() as usize;
        let h: usize = self.height() as usize;
        assert(w * h <= 0xffff * 0xffff) by (nonlinear_arith)
            requires
                w <= 0xffff,
                h <= 0xffff,
        ;
        w * h
    }

    pub fn contains(&self, o: &ImageRegion) -> (c: bool)
        ensures
            c == self.spec_contains(o),
    {
        o.l >= self.l && o.b >= self.b && o.t <= self.t && o.r <= self.r
    }

    /// `x` and `y` are absolute image coordinates, not left of or below the
    /// rectangle's corner. The result is relative to the rectangle's own
    /// buffer.
    pub fn buffer_offset(&self, x: u16, y: u16) -> (ofs: usize)
        requires
            self.wf(),
            self.l <= x,
            self.b <= y,
        ensures
            ofs == self.spec_buffer_offset(x as int, y as int),
    {
        let row: usize = (y - self.b) as usize;
        let w: usize = self.width() as usize;
        assert(row * w <= 0xffff * 0xffff) by (nonlinear_arith)
            requires
                row <= 0xffff,
                w <= 0xffff,
        ;
        row * w + (x - self.l) as usize
    }
}

impl ImageRegion {
    /// Containment is reflexive.
    pub proof fn lemma_contains_reflexive(&self)
        ensures
            self.spec_contains(self),
    {
    }

    /// Containment is transitive.
    pub proof fn lemma_contains_transitive(&self, mid: &ImageRegion, inner: &ImageRegion)
        requires
            self.spec_contains(mid),
            mid.spec_contains(inner),
        ensures
            self.spec_contains(inner),
    {
    }

    /// Two regions that contain each other are the same region.
    pub proof fn lemma_contains_antisymmetric(&self, o: &ImageRegion)
        requires
            self.spec_contains(o),
            o.spec_contains(self),
        ensures
            *self == *o,
    {
    }

    /// A region covers every pixel that a region inside it covers.
    pub proof fn lemma_contains_covers(&self, o: &ImageRegion, x: int, y: int)
        requires
            self.spec_contains(o),
            o.covers(x, y),
        ensures
            self.covers(x, y),
    {
    }

    /// The offset of a covered pixel lies inside the buffer, and the pixel is
    /// found again from it.
    pub proof fn lemma_offset_in_bounds(&self, x: int, y: int)
        requires
            self.wf(),
            self.covers(x, y),
        ensures
            0 <= self.spec_buffer_offset(x, y) < self.spec_area(),
            self.spec_pixel_at(self.spec_buffer_offset(x, y)) == (x, y),
    {
        let w = self.spec_width();
        let h = self.spec_height();
        let q = y - self.b;
        let c = x - self.l;
        assert(0 <= q * w && q * w + w <= h * w) by (nonlinear_arith)
            requires
                0 <= q < h,
                0 < w,
        ;
        assert(w * h == h * w) by (nonlinear_arith);
        lemma_fundamental_div_mod_converse(q * w + c, w, q, c);
    }

    /// The offset of a place in a covered row is at most the area, also for
    /// the place just past the row's last pixel.
    pub proof fn lemma_offset_at_most_area(&self, x: int, y: int)
        requires
            self.wf(),
            self.l <= x <= self.r,
            self.b <= y < self.t,
        ensures
            0 <= self.spec_buffer_offset(x, y) <= self.spec_area(),
    {
        let w = self.spec_width();
        let h = self.spec_height();
        let q = y - self.b;
        assert(0 <= q * w && q * w + w <= h * w) by (nonlinear_arith)
            requires
                0 <= q < h,
                0 <= w,
        ;
        assert(w * h == h * w) by (nonlinear_arith);
    }

    /// Every position inside the buffer holds a covered pixel, whose offset
    /// it is.
    pub proof fn lemma_pixel_at_in_bounds(&self, ofs: int)
        requires
            self.wf(),
            0 <= ofs < self.spec_area(),
        ensures
            self.covers(self.spec_pixel_at(ofs).0, self.spec_pixel_at(ofs).1),
            self.spec_buffer_offset(self.spec_pixel_at(ofs).0, self.spec_pixel_at(ofs).1) == ofs,
    {
        let w = self.spec_width();
        let h = self.spec_height();
        assert(w > 0) by (nonlinear_arith)
            requires
                0 <= ofs < w * h,
                w >= 0,
        ;
        lemma_fundamental_div_mod(ofs, w);
        lemma_mod_bound(ofs, w);
        lemma_div_pos_is_pos(ofs, w);
        let q = ofs / w;
        assert(q < h) by (nonlinear_arith)
            requires
                ofs == w * q + ofs % w,
                0 <= ofs % w,
                ofs < w * h,
                w > 0,
        ;
        assert(q * w == w * q) by (nonlinear_arith);
    }
}

} // verus!
