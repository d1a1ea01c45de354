//! Pixel buffers: four bytes for each pixel of a region, row by row.

use vstd::arithmetic::div_mod::lemma_fundamental_div_mod_converse;
use vstd::prelude::*;
use crate::region::ImageRegion;

verus! {

/// The pixels of one region of an image, as red, green, blue and alpha bytes.
///
/// A tile's buffer and the buffer of the whole frame are both of this type:
/// tiles are copied into the frame with `set_pixels_from_buffer`.
pub struct RGBABuffer {
    buf: Vec<u8>,
    reg: ImageRegion,
}

impl View for RGBABuffer {
    type V = Seq<u8>;

    /// The bytes of the buffer: four for each pixel, rows from the bottom up,
    /// each row from the left.
    closed spec fn view(&self) -> Seq<u8> {
        self.buf@
    }
}

/// `pixels` with the four bytes from position `at` on replaced by `rgba`.
pub open spec fn with_pixel(pixels: Seq<u8>, at: int, rgba: Seq<u8>) -> Seq<u8> {
    Seq::new(
        pixels.len(),
        |i: int|
            if at <= i < at + 4 {
                rgba[i - at]
            } else {
                pixels[i]
            },
    )
}

/// What the bytes `frame` of the region `fr` become when the bytes `tile` of
/// the region `tr` are copied in: each byte belongs to one channel of one
/// pixel, and is taken from the tile where the tile covers that pixel.
pub open spec fn blit(frame: Seq<u8>, fr: ImageRegion, tile: Seq<u8>, tr: ImageRegion) -> Seq<u8> {
    Seq::new(
        frame.len(),
        |i: int|
            {
                let (x, y) = fr.spec_pixel_at(i / 4);
                if tr.covers(x, y) {
                    tile[tr.spec_byte_index(x, y, i % 4)]
                } else {
                    frame[i]
                }
            },
    )
}

/// Storing a pixel puts its four bytes at the pixel's place and leaves every
/// other covered pixel as it was.
pub proof fn lemma_with_pixel(
    pixels: Seq<u8>,
    r: ImageRegion,
    x: int,
    y: int,
    rgba: Seq<u8>,
    x2: int,
    y2: int,
)
    requires
        r.wf(),
        pixels.len() == 4 * r.spec_area(),
        rgba.len() == 4,
        r.covers(x, y),
        r.covers(x2, y2),
    ensures
        with_pixel(pixels, r.spec_byte_index(x, y, 0), rgba).subrange(
            r.spec_byte_index(x2, y2, 0),
            r.spec_byte_index(x2, y2, 4),
        ) == if x2 == x && y2 == y {
            rgba
        } else {
            pixels.subrange(r.spec_byte_index(x2, y2, 0), r.spec_byte_index(x2, y2, 4))
        },
{
    r.lemma_offset_in_bounds(x, y);
    r.lemma_offset_in_bounds(x2, y2);
    let at = r.spec_byte_index(x, y, 0);
    let at2 = r.spec_byte_index(x2, y2, 0);
    let after = with_pixel(pixels, at, rgba).subrange(at2, at2 + 4);
    if x2 == x && y2 == y {
        assert(after =~= rgba);
    } else {
        assert(after =~= pixels.subrange(at2, at2 + 4));
    }
}

/// `blit` as far as a copy has come that goes row by row and byte by byte:
/// the rows below `y`, and of row `y` the first `k` bytes that the tile has
/// for it.
spec fn blit_upto(
    frame: Seq<u8>,
    fr: ImageRegion,
    tile: Seq<u8>,
    tr: ImageRegion,
    y: int,
    k: int,
) -> Seq<u8> {
    Seq::new(
        frame.len(),
        |i: int|
            {
                let (x, yy) = fr.spec_pixel_at(i / 4);
                if tr.covers(x, yy) && (yy < y || (yy == y && 4 * (x - tr.l) + i % 4 < k)) {
                    tile[tr.spec_byte_index(x, yy, i % 4)]
                } else {
                    frame[i]
                }
            },
    )
}

/// Copying one more byte of row `y` takes `blit_upto` one step further.
proof fn lemma_blit_step(
    frame: Seq<u8>,
    fr: ImageRegion,
    tile: Seq<u8>,
    tr: ImageRegion,
    y: int,
    k: int,
)
    requires
        fr.wf(),
        tr.wf(),
        fr.spec_contains(&tr),
        frame.len() == 4 * fr.spec_area(),
        tile.len() == 4 * tr.spec_area(),
        tr.b <= y < tr.t,
        0 <= k < 4 * tr.spec_width(),
    ensures
        0 <= fr.spec_byte_index(tr.l as int, y, k) < frame.len(),
        0 <= tr.spec_byte_index(tr.l as int, y, k) < tile.len(),
        blit_upto(frame, fr, tile, tr, y, k).update(
            fr.spec_byte_index(tr.l as int, y, k),
            tile[tr.spec_byte_index(tr.l as int, y, k)],
        ) == blit_upto(frame, fr, tile, tr, y, k + 1),
{
    let x0 = tr.l + k / 4;
    let c = k % 4;
    let dst = fr.spec_byte_index(tr.l as int, y, k);
    let src = tr.spec_byte_index(tr.l as int, y, k);
    assert(tr.covers(x0, y));
    fr.lemma_offset_in_bounds(x0, y);
    tr.lemma_offset_in_bounds(x0, y);
    assert(dst == 4 * fr.spec_buffer_offset(x0, y) + c);
    assert(src == tr.spec_byte_index(x0, y, c));
    lemma_fundamental_div_mod_converse(dst, 4, fr.spec_buffer_offset(x0, y), c);
    let before = blit_upto(frame, fr, tile, tr, y, k);
    let after = blit_upto(frame, fr, tile, tr, y, k + 1);
    assert forall|i: int| 0 <= i < frame.len() implies before.update(dst, tile[src])[i]
        == after[i] by {
        if i != dst {
            fr.lemma_pixel_at_in_bounds(i / 4);
        }
    }
    assert(before.update(dst, tile[src]) =~= after);
}

/// A copy that has done every row has done the whole of `blit`, and one that
/// has done none has changed nothing.
proof fn lemma_blit_rows(
    frame: Seq<u8>,
    fr: ImageRegion,
    tile: Seq<u8>,
    tr: ImageRegion,
    y: int,
)
    requires
        tr.wf(),
    ensures
        blit_upto(frame, fr, tile, tr, tr.b as int, 0) == frame,
        blit_upto(frame, fr, tile, tr, tr.t as int, 0) == blit(frame, fr, tile, tr),
        blit_upto(frame, fr, tile, tr, y, 4 * tr.spec_width()) == blit_upto(
            frame,
            fr,
            tile,
            tr,
            y + 1,
            0,
        ),
{
    assert(blit_upto(frame, fr, tile, tr, tr.b as int, 0) =~= frame);
    assert(blit_upto(frame, fr, tile, tr, tr.t as int, 0) =~= blit(frame, fr, tile, tr));
    assert(blit_upto(frame, fr, tile, tr, y, 4 * tr.spec_width()) =~= blit_upto(
        frame,
        fr,
        tile,
        tr,
        y + 1,
        0,
    ));
}

/// Copying a tile over a frame of the tile's own region leaves the tile's
/// bytes, whatever the frame held.
pub proof fn lemma_blit_same_region(frame: Seq<u8>, tile: Seq<u8>, r: ImageRegion)
    requires
        r.wf(),
        frame.len() == 4 * r.spec_area(),
        tile.len() == 4 * r.spec_area(),
    ensures
        blit(frame, r, tile, r) == tile,
{
    assert forall|i: int| 0 <= i < frame.len() implies blit(frame, r, tile, r)[i] == tile[i] by {
        r.lemma_pixel_at_in_bounds(i / 4);
    }
    assert(blit(frame, r, tile, r) =~= tile);
}

/// Copying the same tile twice leaves what copying it once left.
pub proof fn lemma_blit_idempotent(
    frame: Seq<u8>,
    fr: ImageRegion,
    tile: Seq<u8>,
    tr: ImageRegion,
)
    ensures
        blit(blit(frame, fr, tile, tr), fr, tile, tr) == blit(frame, fr, tile, tr),
{
    assert(blit(blit(frame, fr, tile, tr), fr, tile, tr) =~= blit(frame, fr, tile, tr));
}

/// Copying a tile in changes the pixels that the tile covers to the tile's,
/// and no others.
pub proof fn lemma_blit_pixels(
    frame: Seq<u8>,
    fr: ImageRegion,
    tile: Seq<u8>,
    tr: ImageRegion,
    x: int,
    y: int,
    c: int,
)
    requires
        fr.wf(),
        frame.len() == 4 * fr.spec_area(),
        fr.covers(x, y),
        0 <= c < 4,
    ensures
        0 <= fr.spec_byte_index(x, y, c) < frame.len(),
        blit(frame, fr, tile, tr)[fr.spec_byte_index(x, y, c)] == if tr.covers(x, y) {
            tile[tr.spec_byte_index(x, y, c)]
        } else {
            frame[fr.spec_byte_index(x, y, c)]
        },
{
    fr.lemma_offset_in_bounds(x, y);
    lemma_fundamental_div_mod_converse(
        fr.spec_byte_index(x, y, c),
        4,
        fr.spec_buffer_offset(x, y),
        c,
    );
}

impl RGBABuffer {
    /// The region whose pixels the buffer holds.
    pub closed spec fn spec_region(&self) -> ImageRegion {
        self.reg
    }

    /// The buffer holds exactly four bytes for each pixel of its region.
    pub open spec fn wf(&self) -> bool {
        &&& self.spec_region().wf()
        &&& self@.len() == 4 * self.spec_region().spec_area()
    }

    /// The four bytes of the pixel `(x, y)`.
    pub open spec fn pixel(&self, x: int, y: int) -> Seq<u8> {
        self@.subrange(
            self.spec_region().spec_byte_index(x, y, 0),
            self.spec_region().spec_byte_index(x, y, 4),
        )
    }

    /// The number of bytes for each pixel.
    pub fn components() -> (c: usize)
        ensures
            c == 4,
    {
        4
    }

    /// A buffer for the region `r`, every byte zero.
    pub fn new(r: &ImageRegion) -> (buf: RGBABuffer)
        requires
            r.wf(),
            4 * r.spec_area() <= usize::MAX,
        ensures
            buf.wf(),
            buf.spec_region() == *r,
            buf@ == Seq::new((4 * r.spec_area()) as nat, |i: int| 0u8),
    {
        let v: Vec<u8> = vec![0u8; r.area() * RGBABuffer::components()];
        assert(v@ =~= Seq::new((4 * r.spec_area()) as nat, |i: int| 0u8));
        RGBABuffer { buf: v, reg: *r }
    }

    pub fn buffer(&self) -> (b: &Vec<u8>)
        ensures
            b@ == self@,
    {
        &self.buf
    }

    pub fn region(&self) -> (r: &ImageRegion)
        ensures
            *r == self.spec_region(),
    {
        &self.reg
    }

    /// Copies the pixels of `b` to their places in this buffer. The region of
    /// `b` must lie inside this buffer's region.
    pub fn set_pixels_from_buffer(&mut self, b: &RGBABuffer)
        requires
            old(self).wf(),
            b.wf(),
            old(self).spec_region().spec_contains(&b.spec_region()),
        ensures
            final(self).wf(),
            final(self).spec_region() == old(self).spec_region(),
            final(self)@ == blit(old(self)@, old(self).spec_region(), b@, b.spec_region()),
    {
        let w: usize = b.reg.width() as usize * RGBABuffer::components();
        if self.reg == b.reg {
            proof {
                lemma_blit_same_region(self.buf@, b.buf@, b.reg);
            }
            self.buf = b.buf.clone();
            assert(self.buf@ =~= b.buf@);
            return ;
        }
        let ghost frame = self.buf@;
        let ghost fr = self.reg;
        let ghost tr = b.reg;
        proof {
            lemma_blit_rows(frame, fr, b.buf@, tr, 0);
        }
        let mut y: u16 = b.reg.b;
        while y < b.reg.t
            invariant
                fr.wf(),
                tr.wf(),
                fr.spec_contains(&tr),
                self.reg == fr,
                b.reg == tr,
                frame.len() == 4 * fr.spec_area(),
                frame.len() == self.buf.len(),
                b.buf.len() == 4 * tr.spec_area(),
                w == 4 * tr.spec_width(),
                tr.b <= y <= tr.t,
                self.buf@ == blit_upto(frame, fr, b.buf@, tr, y as int, 0),
            decreases tr.t - y,
        {
            proof {
                fr.lemma_offset_at_most_area(tr.l as int, y as int);
                tr.lemma_offset_at_most_area(tr.l as int, y as int);
            }
            let bl: usize = self.reg.buffer_offset(b.reg.l, y) * RGBABuffer::components();
            let their_bl: usize = b.reg.buffer_offset(b.reg.l, y) * RGBABuffer::components();
            let mut k: usize = 0;
            while k < w
                invariant
                    fr.wf(),
                    tr.wf(),
                    fr.spec_contains(&tr),
                    self.reg == fr,
                    b.reg == tr,
                    frame.len() == 4 * fr.spec_area(),
                    frame.len() == self.buf.len(),
                    b.buf.len() == 4 * tr.spec_area(),
                    w == 4 * tr.spec_width(),
                    tr.b <= y < tr.t,
                    k <= w,
                    bl == fr.spec_byte_index(tr.l as int, y as int, 0),
                    their_bl == tr.spec_byte_index(tr.l as int, y as int, 0),
                    self.buf@ == blit_upto(frame, fr, b.buf@, tr, y as int, k as int),
                decreases w - k,
            {
                proof {
                    lemma_blit_step(frame, fr, b.buf@, tr, y as int, k as int);
                }
                self.buf[bl + k] = b.buf[their_bl + k];
                k += 1;
            }
            proof {
                lemma_blit_rows(frame, fr, b.buf@, tr, y as int);
            }
            y += 1;
        }
        proof {
            lemma_blit_rows(frame, fr, b.buf@, tr, 0);
        }
    }

    /// Stores `rgba` as the pixel `(x, y)`, given in image coordinates.
    pub fn set_pixel(&mut self, x: u16, y: u16, rgba: [u8; 4])
        requires
            old(self).wf(),
            old(self).spec_region().covers(x as int, y as int),
        ensures
            final(self).wf(),
            final(self).spec_region() == old(self).spec_region(),
            final(self)@ == with_pixel(
                old(self)@,
                old(self).spec_region().spec_byte_index(x as int, y as int, 0),
                rgba@,
            ),
    {
        proof {
            self.reg.lemma_offset_in_bounds(x as int, y as int);
        }
        let pos: usize = self.reg.buffer_offset(x, y);
        assert(4 * pos + 4 <= self.buf.len());
        let ofs: usize = pos * RGBABuffer::components();
        let ghost before = self.buf@;
        self.buf[ofs] = rgba[0];
        self.buf[ofs + 1] = rgba[1];
        self.buf[ofs + 2] = rgba[2];
        self.buf[ofs + 3] = rgba[3];
        assert(self.buf@ =~= with_pixel(before, ofs as int, rgba@));
    }
}

} // verus!
