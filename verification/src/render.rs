//! The tile renderer's plan: how an image is cut into tiles, how one tile is
//! filled, and what a sink for finished tiles looks like.

use vstd::arithmetic::div_mod::{
    lemma_div_pos_is_pos,
    lemma_fundamental_div_mod,
    lemma_fundamental_div_mod_converse,
    lemma_mod_bound,
};
use vstd::prelude::*;
use crate::buffer::{lemma_with_pixel, RGBABuffer};
use crate::group::TypedGroup;
use crate::primitive::{DistanceMeasure, Hit, Intersectable, MISSED};
use crate::region::ImageRegion;

verus! {

/// The edge of a tile, in pixels. Tiles are squares of this size.
pub const TILE_EDGE: u16 = 64;

/// A sink for finished tiles.
pub trait RGBABufferWriter {
    /// To be called once, before the first tile, with the size of the whole
    /// image.
    fn begin(&mut self, x: u16, y: u16);

    /// Takes one finished tile. Its region may lie anywhere within the image,
    /// and tiles may arrive in any order.
    fn write_rgba_buffer(&mut self, buffer: &RGBABuffer);
}

#[derive(Clone, Copy, Debug)]
pub struct RenderOptions {
    pub width: u16,
    pub height: u16,
    pub samples_per_pixel: u16,
}

impl RenderOptions {
    /// Width and height are whole numbers of tiles.
    pub open spec fn spec_is_tileable(&self) -> bool {
        self.width % TILE_EDGE == 0 && self.height % TILE_EDGE == 0
    }

    /// The number of tiles side by side in one row of tiles.
    pub open spec fn tile_columns(&self) -> int {
        self.width as int / 64
    }

    /// The number of rows of tiles.
    pub open spec fn tile_rows(&self) -> int {
        self.height as int / 64
    }

    /// The number of tiles that the image is cut into.
    pub open spec fn tile_count(&self) -> int {
        self.tile_columns() * self.tile_rows()
    }

    /// The `k`-th tile. Tiles are counted along a row of tiles from the left,
    /// row after row from the bottom.
    pub open spec fn tile(&self, k: int) -> ImageRegion {
        let col = k % self.tile_columns();
        let row = k / self.tile_columns();
        ImageRegion {
            l: (64 * col) as u16,
            t: (64 * row + 64) as u16,
            r: (64 * col + 64) as u16,
            b: (64 * row) as u16,
        }
    }

    /// The region of the whole image.
    pub open spec fn spec_frame(&self) -> ImageRegion {
        ImageRegion { l: 0, t: self.height, r: self.width, b: 0 }
    }

    /// Whether the image can be cut into whole tiles. An image that cannot
    /// is not rendered at all.
    pub fn is_tileable(&self) -> (ok: bool)
        ensures
            ok == self.spec_is_tileable(),
    {
        self.width % TILE_EDGE == 0 && self.height % TILE_EDGE == 0
    }

    /// The region of the whole image.
    pub fn frame(&self) -> (r: ImageRegion)
        ensures
            r == self.spec_frame(),
            r.wf(),
    {
        ImageRegion { l: 0, t: self.height, r: self.width, b: 0 }
    }

    /// Column and row of the `k`-th tile, and its edges without the casts.
    pub proof fn lemma_tile_edges(&self, k: int)
        requires
            self.spec_is_tileable(),
            0 <= k < self.tile_count(),
        ensures
            0 <= k % self.tile_columns() < self.tile_columns(),
            0 <= k / self.tile_columns() < self.tile_rows(),
            self.tile(k).l == 64 * (k % self.tile_columns()),
            self.tile(k).r == 64 * (k % self.tile_columns()) + 64,
            self.tile(k).b == 64 * (k / self.tile_columns()),
            self.tile(k).t == 64 * (k / self.tile_columns()) + 64,
            self.tile(k).r <= self.width,
            self.tile(k).t <= self.height,
    {
        let cols = self.tile_columns();
        let rows = self.tile_rows();
        assert(cols > 0) by (nonlinear_arith)
            requires
                0 <= k < cols * rows,
                cols >= 0,
        ;
        lemma_fundamental_div_mod(k, cols);
        lemma_mod_bound(k, cols);
        lemma_div_pos_is_pos(k, cols);
        let q = k / cols;
        assert(q < rows) by (nonlinear_arith)
            requires
                k == cols * q + k % cols,
                0 <= k % cols,
                k < cols * rows,
                cols > 0,
        ;
    }

    /// Every tile is a square of `TILE_EDGE` pixels inside the image.
    pub proof fn lemma_tile_inside_frame(&self, k: int)
        requires
            self.spec_is_tileable(),
            0 <= k < self.tile_count(),
        ensures
            self.tile(k).wf(),
            self.tile(k).spec_width() == TILE_EDGE,
            self.tile(k).spec_height() == TILE_EDGE,
            self.spec_frame().spec_contains(&self.tile(k)),
    {
        self.lemma_tile_edges(k);
    }

    /// Every pixel of the image lies in a tile: in the one whose column and
    /// row are the pixel's coordinates divided by the tile edge.
    pub proof fn lemma_tiles_cover_frame(&self, x: int, y: int)
        requires
            self.spec_is_tileable(),
            self.spec_frame().covers(x, y),
        ensures
            0 <= (y / 64) * self.tile_columns() + x / 64 < self.tile_count(),
            self.tile((y / 64) * self.tile_columns() + x / 64).covers(x, y),
    {
        let cols = self.tile_columns();
        let rows = self.tile_rows();
        let col = x / 64;
        let row = y / 64;
        assert(0 <= row * cols && row * cols + cols <= cols * rows) by (nonlinear_arith)
            requires
                0 <= row < rows,
                0 < cols,
        ;
        lemma_fundamental_div_mod_converse(row * cols + col, cols, row, col);
        self.lemma_tile_edges(row * cols + col);
    }

    /// No pixel lies in two tiles.
    pub proof fn lemma_tiles_disjoint(&self, j: int, k: int, x: int, y: int)
        requires
            self.spec_is_tileable(),
            0 <= j < self.tile_count(),
            0 <= k < self.tile_count(),
            self.tile(j).covers(x, y),
            self.tile(k).covers(x, y),
        ensures
            j == k,
    {
        let cols = self.tile_columns();
        self.lemma_tile_edges(j);
        self.lemma_tile_edges(k);
        lemma_fundamental_div_mod(j, cols);
        lemma_fundamental_div_mod(k, cols);
        assert(j % cols == k % cols);
        assert(j / cols == k / cols);
    }
}

/// What one ray adds to its pixel. `C` is what the caller needs to know of
/// a surface to colour it.
#[derive(Debug)]
pub enum Shade<C> {
    /// The ray met nothing.
    Background,
    /// The ray met a surface that faces away from the light.
    Ambient,
    /// The ray met a surface that faces the light, and nothing stands
    /// between the two.
    Lit(C),
    /// The ray met a surface that faces the light, and something stands
    /// between the two.
    Shadowed(C),
}

impl<C> Shade<C> {
    /// One where the ray saw a lit surface, and zero where it did not.
    pub open spec fn spec_coverage(&self) -> u8 {
        match self {
            Shade::Lit(_) => 1,
            _ => 0,
        }
    }

    /// How much of a sample the ray covers with a lit surface: one or zero.
    /// Averaged over a pixel's samples this is the pixel's alpha.
    pub fn coverage(&self) -> (c: u8)
        ensures
            c == self.spec_coverage(),
    {
        match self {
            Shade::Lit(_) => 1,
            _ => 0,
        }
    }
}

/// What a ray that met a surface at `hit` adds to its pixel, where `light`
/// is what the caller made of the ray and the hit: nothing where the surface
/// faces away from the light, else the ray from the surface towards the light
/// and what the caller needs for colouring.
pub open spec fn shade_of_hit<B, I, R, P, C>(
    group: &TypedGroup<B, I>,
    hit: Hit<P>,
    light: Option<(R, C)>,
) -> Shade<C>
    where B: DistanceMeasure<R>, I: Intersectable<R, P>
{
    match light {
        None => Shade::Ambient,
        Some((shadow_ray, c)) => if group.traverse(
            Hit { distance: MISSED, pos: hit.pos },
            &shadow_ray,
        ).spec_has_missed() {
            Shade::Lit(c)
        } else {
            Shade::Shadowed(c)
        },
    }
}

/// `shade` is what `ray` adds to its pixel: the background where the ray
/// meets nothing in `group`, and else what follows from the nearest hit and
/// from what `toward_light` makes of it.
pub open spec fn traced<B, I, R, P, C, F>(
    group: &TypedGroup<B, I>,
    ray: &R,
    pos: P,
    toward_light: F,
    shade: Shade<C>,
) -> bool
    where B: DistanceMeasure<R>, I: Intersectable<R, P>, F: Fn(&R, &Hit<P>) -> Option<(R, C)>
{
    let hit = group.traverse(Hit { distance: MISSED, pos }, ray);
    if hit.spec_has_missed() {
        shade == Shade::<C>::Background
    } else {
        exists|light: Option<(R, C)>| #[trigger]
            call_ensures(toward_light, (ray, &hit), light) && shade == shade_of_hit(
                group,
                hit,
                light,
            )
    }
}

/// The tile renderer.
pub struct Renderer;

impl Renderer {
    /// Cuts the image into its tiles, in the order in which they are handed
    /// out for rendering: along each row of tiles from the left, row after
    /// row from the bottom.
    pub fn tiles(o: &RenderOptions) -> (ts: Vec<ImageRegion>)
        requires
            o.spec_is_tileable(),
        ensures
            ts@.len() == o.tile_count(),
            forall|k: int| 0 <= k < ts@.len() ==> #[trigger] ts@[k] == o.tile(k),
    {
        let mut ts: Vec<ImageRegion> = Vec::new();
        let ghost cols = o.tile_columns();
        let ghost rows = o.tile_rows();
        let ghost mut row: int = 0;
        let mut y: u16 = 0;
        while y < o.height
            invariant
                o.spec_is_tileable(),
                cols == o.tile_columns(),
                rows == o.tile_rows(),
                0 <= row <= rows,
                y == 64 * row,
                ts@.len() == row * cols,
                forall|k: int| 0 <= k < ts@.len() ==> #[trigger] ts@[k] == o.tile(k),
            decreases o.height - y,
        {
            let ghost mut col: int = 0;
            let mut x: u16 = 0;
            while x < o.width
                invariant
                    o.spec_is_tileable(),
                    cols == o.tile_columns(),
                    rows == o.tile_rows(),
                    0 <= row < rows,
                    y == 64 * row,
                    0 <= col <= cols,
                    x == 64 * col,
                    ts@.len() == row * cols + col,
                    forall|k: int| 0 <= k < ts@.len() ==> #[trigger] ts@[k] == o.tile(k),
                decreases o.width - x,
            {
                proof {
                    lemma_fundamental_div_mod_converse(row * cols + col, cols, row, col);
                }
                ts.push(ImageRegion { l: x, r: x + TILE_EDGE, b: y, t: y + TILE_EDGE });
                x += TILE_EDGE;
                proof {
                    col = col + 1;
                }
            }
            y += TILE_EDGE;
            proof {
                assert(row * cols + cols == (row + 1) * cols) by (nonlinear_arith);
                row = row + 1;
            }
        }
        proof {
            assert(rows * cols == cols * rows) by (nonlinear_arith);
        }
        ts
    }

    /// Follows `ray` into `group` and says what it adds to its pixel.
    ///
    /// Where the ray meets a surface, `toward_light` is asked about the hit.
    /// It answers nothing where the surface faces away from the light, and
    /// else with the ray from just above the surface towards the light: if
    /// that ray meets anything, the surface lies in shadow. `pos` fills the
    /// position of the hit until something is met.
    pub fn raytrace<B, I, R, P, C, F>(
        group: &TypedGroup<B, I>,
        ray: &R,
        pos: P,
        toward_light: &F,
    ) -> (shade: Shade<C>)
        where B: DistanceMeasure<R>, I: Intersectable<R, P>, F: Fn(&R, &Hit<P>) -> Option<(R, C)>
        requires
            forall|h: &Hit<P>| #[trigger] call_requires(*toward_light, (ray, h)),
        ensures
            traced(group, ray, pos, *toward_light, shade),
    {
        let mut h = Hit::missed(pos);
        group.intersect(&mut h, ray);
        if h.has_missed() {
            return Shade::Background;
        }
        match toward_light(ray, &h) {
            None => Shade::Ambient,
            Some((shadow_ray, c)) => {
                h.set_missed();
                group.intersect(&mut h, &shadow_ray);
                if h.has_missed() {
                    Shade::Lit(c)
                } else {
                    Shade::Shadowed(c)
                }
            },
        }
    }

    /// Fills every pixel of the buffer's region with what `shade` returns
    /// for the pixel's coordinates, row after row from the bottom, each row
    /// from the left.
    pub fn render_region<F>(buf: &mut RGBABuffer, shade: &F)
        where F: Fn(u16, u16) -> [u8; 4]
        requires
            old(buf).wf(),
            forall|x: u16, y: u16|
                old(buf).spec_region().covers(x as int, y as int) ==> #[trigger] call_requires(
                    *shade,
                    (x, y),
                ),
        ensures
            final(buf).wf(),
            final(buf).spec_region() == old(buf).spec_region(),
            forall|x: u16, y: u16|
                final(buf).spec_region().covers(x as int, y as int) ==> shaded(
                    *shade,
                    x,
                    y,
                    #[trigger] final(buf).pixel(x as int, y as int),
                ),
    {
        let region = *buf.region();
        let mut y: u16 = region.b;
        while y < region.t
            invariant
                buf.wf(),
                buf.spec_region() == region,
                region == old(buf).spec_region(),
                region.b <= y <= region.t,
                forall|x: u16, y: u16|
                    region.covers(x as int, y as int) ==> #[trigger] call_requires(
                        *shade,
                        (x, y),
                    ),
                forall|x2: u16, y2: u16|
                    region.covers(x2 as int, y2 as int) && y2 < y ==> shaded(
                        *shade,
                        x2,
                        y2,
                        #[trigger] buf.pixel(x2 as int, y2 as int),
                    ),
            decreases region.t - y,
        {
            let mut x: u16 = region.l;
            while x < region.r
                invariant
                    buf.wf(),
                    buf.spec_region() == region,
                    region.b <= y < region.t,
                    region.l <= x <= region.r,
                    forall|x: u16, y: u16|
                        region.covers(x as int, y as int) ==> #[trigger] call_requires(
                            *shade,
                            (x, y),
                        ),
                    forall|x2: u16, y2: u16|
                        region.covers(x2 as int, y2 as int) && (y2 < y || (y2 == y && x2 < x))
                            ==> shaded(*shade, x2, y2, #[trigger] buf.pixel(x2 as int, y2 as int)),
                decreases region.r - x,
            {
                let rgba = shade(x, y);
                let ghost before = *buf;
                buf.set_pixel(x, y, rgba);
                proof {
                    assert forall|x2: u16, y2: u16|
                        region.covers(x2 as int, y2 as int) && (y2 < y || (y2 == y && x2 < x + 1))
                        implies shaded(
                        *shade,
                        x2,
                        y2,
                        #[trigger] buf.pixel(x2 as int, y2 as int),
                    ) by {
                        lemma_with_pixel(
                            before@,
                            region,
                            x as int,
                            y as int,
                            rgba@,
                            x2 as int,
                            y2 as int,
                        );
                        if x2 == x && y2 == y {
                            assert(buf.pixel(x2 as int, y2 as int) == rgba@);
                        } else {
                            assert(buf.pixel(x2 as int, y2 as int) == before.pixel(
                                x2 as int,
                                y2 as int,
                            ));
                        }
                    }
                }
                x += 1;
            }
            y += 1;
        }
    }
}

/// `pixel` holds the four bytes of something that `shade` may return for the
/// coordinates `(x, y)`.
pub open spec fn shaded<F>(shade: F, x: u16, y: u16, pixel: Seq<u8>) -> bool
    where F: Fn(u16, u16) -> [u8; 4]
{
    exists|rgba: [u8; 4]| #[trigger] call_ensures(shade, (x, y), rgba) && rgba@ == pixel
}

} // verus!
