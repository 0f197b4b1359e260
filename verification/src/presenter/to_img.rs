//! Rasterization of a finished maze to a pixel buffer. The buffer is
//! `image`'s `RgbImage`; filled rectangles are drawn through `imageproc`.
//! Given cell size `s` and wall thickness `t`, a maze of `cols` by `rows`
//! cells becomes an image of `cols*s + (cols+1)*t` by `rows*s + (rows+1)*t`
//! pixels: a light background on which every closed cell boundary is a
//! black wall of thickness `t`, and a boundary between two adjacent cells
//! is left open exactly where they share a passage. Writing the buffer to
//! a file is the caller's business.

use vstd::prelude::*;

use crate::maze::grid::Grid;
use image::{ImageBuffer, Rgb, RgbImage};
use imageproc::drawing::draw_filled_rect_mut;
use imageproc::rect::Rect;

verus! {

/// The rendered pixel buffer. Verus cannot declare image's `ImageBuffer`
/// (its `Pixel` bound is an outside trait), so the buffer lives opaquely in
/// this struct; unverified consumers reach the real image through `buf` to
/// write it out.
#[verifier::external_body]
pub struct PixelBuffer {
    /// The underlying image.
    pub buf: RgbImage,
}

/// The width and height, in pixels, of a pixel buffer.
pub uninterp spec fn image_dims(img: PixelBuffer) -> (u32, u32);

/// What a pixel buffer holds: each in-bounds `(x, y)` coordinate maps to
/// its `(red, green, blue)` pixel value.
pub uninterp spec fn image_pixels(img: PixelBuffer) -> Map<(int, int), (u8, u8, u8)>;

/// Relies on image's `ImageBuffer::new`: a buffer of the given dimensions
/// with every pixel zeroed, i.e. black. It panics when the pixel buffer
/// would overflow `usize`; its length check multiplies the channel count
/// by the width first, so the width alone must fit as well.
#[verifier::external_body]
fn new_image(w: u32, h: u32) -> (img: PixelBuffer)
    requires
        w >= 1,
        h >= 1,
        3 * (w as int) <= usize::MAX,
        3 * (w as int) * (h as int) <= usize::MAX,
    ensures
        image_dims(img) == (w, h),
        forall|x: int, y: int|
            0 <= x < w && 0 <= y < h ==> #[trigger] image_pixels(img)[(x, y)] == (0u8, 0u8, 0u8),
{
    PixelBuffer { buf: ImageBuffer::new(w, h) }
}

/// Relies on imageproc's `draw_filled_rect_mut`, with `Rect::at` and
/// `RectPosition::of_size` building the rectangle: paints every pixel of
/// the rectangle that lies inside the image with the given colour and
/// leaves every other pixel unchanged. `of_size` panics on an empty
/// rectangle, the canvas intersection panics on an empty image, and the
/// canvas bounds are computed in `i32`, so the image dimensions must fit
/// there too — hence the preconditions.
#[verifier::external_body]
fn fill_rect(img: &mut PixelBuffer, x: u32, y: u32, rw: u32, rh: u32, red: u8, green: u8, blue: u8)
    requires
        1 <= rw,
        1 <= rh,
        x + rw <= i32::MAX,
        y + rh <= i32::MAX,
        1 <= image_dims(*old(img)).0 <= i32::MAX,
        1 <= image_dims(*old(img)).1 <= i32::MAX,
    ensures
        image_dims(*final(img)) == image_dims(*old(img)),
        forall|px: int, py: int|
            0 <= px < image_dims(*old(img)).0 && 0 <= py < image_dims(*old(img)).1
                ==> #[trigger] image_pixels(*final(img))[(px, py)] == (if x <= px < x + rw && y
                <= py < y + rh {
                (red, green, blue)
            } else {
                image_pixels(*old(img))[(px, py)]
            }),
{
    draw_filled_rect_mut(
        &mut img.buf,
        Rect::at(x as i32, y as i32).of_size(rw, rh),
        Rgb([red, green, blue]),
    );
}

/// Relies on image's `ImageBuffer::width`.
#[verifier::external_body]
pub fn image_width(img: &PixelBuffer) -> (w: u32)
    ensures
        w == image_dims(*img).0,
{
    img.buf.width()
}

/// Relies on image's `ImageBuffer::height`.
#[verifier::external_body]
pub fn image_height(img: &PixelBuffer) -> (h: u32)
    ensures
        h == image_dims(*img).1,
{
    img.buf.height()
}

/// The light neutral colour the background is cleared to.
pub open spec fn background_colour() -> (u8, u8, u8) {
    (240u8, 240u8, 240u8)
}

/// The colour every wall is drawn in.
pub open spec fn wall_colour() -> (u8, u8, u8) {
    (0u8, 0u8, 0u8)
}

/// The colour the boundary shared by `(r, c)` and `(r, c + 1)` must show:
/// open (background) exactly when the two cells are linked.
pub open spec fn east_value(g: Grid, r: int, c: int) -> (u8, u8, u8) {
    if g.linked(g.flat(r, c), g.flat(r, c + 1)) {
        background_colour()
    } else {
        wall_colour()
    }
}

/// The colour the boundary shared by `(r, c)` and `(r + 1, c)` must show:
/// open (background) exactly when the two cells are linked.
pub open spec fn south_value(g: Grid, r: int, c: int) -> (u8, u8, u8) {
    if g.linked(g.flat(r, c), g.flat(r + 1, c)) {
        background_colour()
    } else {
        wall_colour()
    }
}

/// Multiplication by a non-negative stride keeps order.
proof fn lemma_mul_mono(a: int, b: int, s: int)
    requires
        a <= b,
        0 <= s,
    ensures
        a * s <= b * s,
{
    assert(a * s <= b * s) by (nonlinear_arith)
        requires
            a <= b,
            0 <= s,
    ;
}

/// One more stride is one stride further.
proof fn lemma_mul_succ(a: int, s: int)
    ensures
        (a + 1) * s == a * s + s,
{
    assert((a + 1) * s == a * s + s) by (nonlinear_arith);
}

/// Two distinct wall bands of width `t` at stride `s >= t` never share a
/// coordinate.
proof fn lemma_band_separation(a: int, b: int, s: int, t: int, p: int)
    requires
        0 <= t <= s,
        0 <= a,
        0 <= b,
        a != b,
        a * s <= p < a * s + t,
    ensures
        !(b * s <= p < b * s + t),
{
    if a < b {
        lemma_mul_mono(a + 1, b, s);
        lemma_mul_succ(a, s);
    } else {
        lemma_mul_mono(b + 1, a, s);
        lemma_mul_succ(b, s);
    }
}

/// A wall band never reaches into the interior of a stride.
proof fn lemma_band_vs_interior(k: int, c2: int, s: int, t: int, p: int)
    requires
        0 <= t <= s,
        0 <= k,
        0 <= c2,
        k * s <= p < k * s + t,
    ensures
        !(c2 * s + t <= p < (c2 + 1) * s),
{
    if k <= c2 {
        lemma_mul_mono(k, c2, s);
    } else {
        lemma_mul_mono(c2 + 1, k, s);
    }
}

/// A cell's span, walls included, meets the interior of exactly its own
/// stride.
proof fn lemma_span_vs_interior(c: int, c2: int, s: int, t: int, p: int)
    requires
        0 <= t <= s,
        0 <= c,
        0 <= c2,
        c * s <= p < (c + 1) * s + t,
        c2 * s + t <= p < (c2 + 1) * s,
    ensures
        c2 == c,
{
    if c2 < c {
        lemma_mul_mono(c2 + 1, c, s);
    } else if c2 > c {
        lemma_mul_mono(c + 1, c2, s);
        lemma_mul_succ(c, s);
    }
}

/// Rendering configuration: how large a cell is drawn and how thick its
/// walls are, in pixels.
#[derive(Clone, Copy)]
pub struct Image {
    /// Inner size of one cell, in pixels.
    pub cell_size: u16,
    /// Thickness of a wall, in pixels.
    pub wall_thickness: u16,
    /// The stride from one cell's origin to the next: cell plus one wall.
    pub size: u16,
}

impl Image {
    /// The pixel extent of `n` cells in one direction: `n` cells plus the
    /// `n + 1` walls around and between them.
    pub open spec fn px_of(self, n: u16) -> int {
        n * self.cell_size + (n + 1) * self.wall_thickness
    }

    /// Walls exist and the stride is consistent.
    pub open spec fn config_ok(self) -> bool {
        &&& self.wall_thickness >= 1
        &&& self.size == self.cell_size + self.wall_thickness
    }

    /// The rendered image of this grid stays within machine limits.
    pub open spec fn fits(self, g: Grid) -> bool {
        &&& self.px_of(g.width) <= i32::MAX
        &&& self.px_of(g.height) <= i32::MAX
        &&& 3 * self.px_of(g.width) * self.px_of(g.height) <= usize::MAX
    }

    /// A rendering configuration with the given cell size and wall
    /// thickness.
    pub fn new(cell_size: u16, wall_thickness: u16) -> (img: Image)
        requires
            cell_size + wall_thickness <= u16::MAX,
        ensures
            img.cell_size == cell_size,
            img.wall_thickness == wall_thickness,
            img.size == cell_size + wall_thickness,
    {
        Image { cell_size, wall_thickness, size: cell_size + wall_thickness }
    }

    /// The pixel extent of `size` cells in one direction.
    fn set_size(&self, size: u16) -> (r: u32)
        requires
            self.px_of(size) <= u32::MAX,
        ensures
            r == self.px_of(size),
    {
        proof {
            assert((size as int) * (self.cell_size as int) <= 65535 * 65535) by (nonlinear_arith)
                requires
                    size <= 65535,
                    self.cell_size <= 65535,
            ;
            assert(((size as int) + 1) * (self.wall_thickness as int) <= 65536
                * 65535) by (nonlinear_arith)
                requires
                    size <= 65535,
                    self.wall_thickness <= 65535,
            ;
        }
        (size as u32) * (self.cell_size as u32) + ((size as u32) + 1) * (self.wall_thickness as u32)
    }


    /// The pixels of the boundary shared by cell `(r, c)` and `(r, c + 1)`:
    /// the wall band east of the cell, without the corner posts above and
    /// below it.
    pub open spec fn east_boundary(self, r: int, c: int, px: int, py: int) -> bool {
        &&& (c + 1) * self.size <= px < (c + 1) * self.size + self.wall_thickness
        &&& r * self.size + self.wall_thickness <= py < (r + 1) * self.size
    }

    /// The pixels of the boundary shared by cell `(r, c)` and `(r + 1, c)`:
    /// the wall band south of the cell, without the corner posts beside it.
    pub open spec fn south_boundary(self, r: int, c: int, px: int, py: int) -> bool {
        &&& c * self.size + self.wall_thickness <= px < (c + 1) * self.size
        &&& (r + 1) * self.size <= py < (r + 1) * self.size + self.wall_thickness
    }

    /// Every pixel of the east boundary of `(r, c)` shows colour `v`.
    pub open spec fn east_is(self, img: PixelBuffer, r: int, c: int, v: (u8, u8, u8)) -> bool {
        forall|px: int, py: int|
            #[trigger] self.east_boundary(r, c, px, py) ==> image_pixels(img)[(px, py)] == v
    }

    /// Every pixel of the south boundary of `(r, c)` shows colour `v`.
    pub open spec fn south_is(self, img: PixelBuffer, r: int, c: int, v: (u8, u8, u8)) -> bool {
        forall|px: int, py: int|
            #[trigger] self.south_boundary(r, c, px, py) ==> image_pixels(img)[(px, py)] == v
    }

    /// An east boundary lies inside the rendered image.
    proof fn lemma_east_boundary_in_image(self, wi: int, hi: int, r2: int, c2: int, px: int, py: int)
        requires
            self.size == self.cell_size + self.wall_thickness,
            0 <= r2 < hi,
            0 <= c2 < wi - 1,
            self.east_boundary(r2, c2, px, py),
        ensures
            0 <= px < wi * self.size + self.wall_thickness,
            0 <= py < hi * self.size + self.wall_thickness,
    {
        let s = self.size as int;
        lemma_mul_mono(0, c2 + 1, s);
        lemma_mul_succ(c2 + 1, s);
        lemma_mul_mono(c2 + 2, wi, s);
        lemma_mul_mono(0, r2, s);
        lemma_mul_mono(r2 + 1, hi, s);
    }

    /// A south boundary lies inside the rendered image.
    proof fn lemma_south_boundary_in_image(self, wi: int, hi: int, r2: int, c2: int, px: int, py: int)
        requires
            self.size == self.cell_size + self.wall_thickness,
            0 <= r2 < hi - 1,
            0 <= c2 < wi,
            self.south_boundary(r2, c2, px, py),
        ensures
            0 <= px < wi * self.size + self.wall_thickness,
            0 <= py < hi * self.size + self.wall_thickness,
    {
        let s = self.size as int;
        lemma_mul_mono(0, c2, s);
        lemma_mul_mono(c2 + 1, wi, s);
        lemma_mul_mono(0, r2 + 1, s);
        lemma_mul_succ(r2 + 1, s);
        lemma_mul_mono(r2 + 2, hi, s);
    }

    /// Draws the grid into a fresh pixel buffer: light background, black
    /// walls of the configured thickness. The buffer measures
    /// `px_of(width)` by `px_of(height)` pixels, holds no colour but the
    /// background and the walls, and the boundary band shared by two
    /// adjacent cells is open (background) exactly where they share a
    /// passage.
    #[verifier::loop_isolation(false)]
    #[verifier::rlimit(80)]
    pub fn render(&self, grid: &Grid) -> (img: PixelBuffer)
        requires
            grid.wf(),
            self.config_ok(),
            self.fits(*grid),
        ensures
            image_dims(img).0 == self.px_of(grid.width),
            image_dims(img).1 == self.px_of(grid.height),
            forall|px: int, py: int|
                0 <= px < image_dims(img).0 && 0 <= py < image_dims(img).1
                    ==> #[trigger] image_pixels(img)[(px, py)] == background_colour()
                    || image_pixels(img)[(px, py)] == wall_colour(),
            forall|r: int, c: int, px: int, py: int|
                0 <= r < grid.height && 0 <= c < grid.width - 1 && #[trigger] self.east_boundary(
                    r,
                    c,
                    px,
                    py,
                ) ==> image_pixels(img)[(px, py)] == east_value(*grid, r, c),
            forall|r: int, c: int, px: int, py: int|
                0 <= r < grid.height - 1 && 0 <= c < grid.width && #[trigger] self.south_boundary(
                    r,
                    c,
                    px,
                    py,
                ) ==> image_pixels(img)[(px, py)] == south_value(*grid, r, c),
    {
        let w = grid.width;
        let h = grid.height;
        let ghost wi = w as int;
        let ghost hi = h as int;
        let sz = self.size as u32;
        let wt = self.wall_thickness as u32;
        proof {
            assert(wi * (self.size as int) + self.wall_thickness == self.px_of(w))
                by (nonlinear_arith)
                requires
                    self.size == self.cell_size + self.wall_thickness,
                    self.px_of(w) == wi * self.cell_size + (wi + 1) * self.wall_thickness,
            ;
            assert(hi * (self.size as int) + self.wall_thickness == self.px_of(h))
                by (nonlinear_arith)
                requires
                    self.size == self.cell_size + self.wall_thickness,
                    self.px_of(h) == hi * self.cell_size + (hi + 1) * self.wall_thickness,
            ;
            assert(self.px_of(w) >= 1 && self.px_of(h) >= 1) by (nonlinear_arith)
                requires
                    self.px_of(w) == wi * self.cell_size + (wi + 1) * self.wall_thickness,
                    self.px_of(h) == hi * self.cell_size + (hi + 1) * self.wall_thickness,
                    wi >= 1,
                    hi >= 1,
                    self.wall_thickness >= 1,
                    self.cell_size >= 0,
            ;
        }
        let width = self.set_size(w);
        let height = self.set_size(h);
        proof {
            assert(3 * (width as int) <= 3 * (width as int) * (height as int))
                by (nonlinear_arith)
                requires
                    width >= 1,
                    height >= 1,
            ;
        }
        let mut img = new_image(width, height);

        // clear the background to a light neutral colour
        fill_rect(&mut img, 0, 0, width, height, 240, 240, 240);
        proof {
            assert forall|r2: int, c2: int|
                0 <= r2 < hi && 0 <= c2 < wi - 1 implies #[trigger] self.east_is(
                img,
                r2,
                c2,
                background_colour(),
            ) by {
                assert forall|px: int, py: int|
                    #[trigger] self.east_boundary(r2, c2, px, py) implies image_pixels(img)[(px, py)]
                    == background_colour() by {
                    self.lemma_east_boundary_in_image(wi, hi, r2, c2, px, py);
                }
            }
            assert forall|r2: int, c2: int|
                0 <= r2 < hi - 1 && 0 <= c2 < wi implies #[trigger] self.south_is(
                img,
                r2,
                c2,
                background_colour(),
            ) by {
                assert forall|px: int, py: int|
                    #[trigger] self.south_boundary(r2, c2, px, py) implies image_pixels(img)[(px,
                    py)] == background_colour() by {
                    self.lemma_south_boundary_in_image(wi, hi, r2, c2, px, py);
                }
            }
        }

        let mut r: u16 = 0;
        while r < h
            invariant
                r <= h,
                image_dims(img).0 == self.px_of(grid.width),
                image_dims(img).1 == self.px_of(grid.height),
                forall|px: int, py: int|
                    0 <= px < image_dims(img).0 && 0 <= py < image_dims(img).1
                        ==> #[trigger] image_pixels(img)[(px, py)] == background_colour()
                        || image_pixels(img)[(px, py)] == wall_colour(),
                forall|r2: int, c2: int|
                    0 <= r2 < r && 0 <= c2 < wi - 1 ==> #[trigger] self.east_is(
                        img,
                        r2,
                        c2,
                        east_value(*grid, r2, c2),
                    ),
                forall|r2: int, c2: int|
                    r <= r2 < hi && 0 <= c2 < wi - 1 ==> #[trigger] self.east_is(
                        img,
                        r2,
                        c2,
                        background_colour(),
                    ),
                forall|r2: int, c2: int|
                    0 <= r2 < r && r2 < hi - 1 && 0 <= c2 < wi ==> #[trigger] self.south_is(
                        img,
                        r2,
                        c2,
                        south_value(*grid, r2, c2),
                    ),
                forall|r2: int, c2: int|
                    r <= r2 < hi - 1 && 0 <= c2 < wi ==> #[trigger] self.south_is(
                        img,
                        r2,
                        c2,
                        background_colour(),
                    ),
            decreases h - r,
        {
            let mut c: u16 = 0;
            while c < w
                invariant
                    c <= w,
                    r < h,
                    image_dims(img).0 == self.px_of(grid.width),
                    image_dims(img).1 == self.px_of(grid.height),
                    forall|px: int, py: int|
                        0 <= px < image_dims(img).0 && 0 <= py < image_dims(img).1
                            ==> #[trigger] image_pixels(img)[(px, py)] == background_colour()
                            || image_pixels(img)[(px, py)] == wall_colour(),
                    forall|r2: int, c2: int|
                        0 <= r2 < hi && 0 <= c2 < wi - 1 && (r2 < r || (r2 == r && c2 < c))
                            ==> #[trigger] self.east_is(img, r2, c2, east_value(*grid, r2, c2)),
                    forall|r2: int, c2: int|
                        0 <= r2 < hi && 0 <= c2 < wi - 1 && !(r2 < r || (r2 == r && c2 < c))
                            ==> #[trigger] self.east_is(img, r2, c2, background_colour()),
                    forall|r2: int, c2: int|
                        0 <= r2 < hi - 1 && 0 <= c2 < wi && (r2 < r || (r2 == r && c2 < c))
                            ==> #[trigger] self.south_is(img, r2, c2, south_value(*grid, r2, c2)),
                    forall|r2: int, c2: int|
                        0 <= r2 < hi - 1 && 0 <= c2 < wi && !(r2 < r || (r2 == r && c2 < c))
                            ==> #[trigger] self.south_is(img, r2, c2, background_colour()),
                decreases w - c,
            {
                proof {
                    crate::maze::graph::lemma_flat_in_range(wi, hi, r as int, c as int);
                    crate::maze::graph::lemma_grid_size_fits(wi, hi);
                    assert(grid.cell_ok(r as int, c as int));
                    assert((r as int + 1) * (sz as int) <= hi * (sz as int)) by (nonlinear_arith)
                        requires
                            r as int + 1 <= hi,
                            sz >= 0,
                    ;
                    assert((c as int + 1) * (sz as int) <= wi * (sz as int)) by (nonlinear_arith)
                        requires
                            c as int + 1 <= wi,
                            sz >= 0,
                    ;
                    assert((r as int) * (sz as int) <= (r as int + 1) * (sz as int))
                        by (nonlinear_arith)
                        requires
                            sz >= 0,
                            r >= 0,
                    ;
                    assert((c as int) * (sz as int) <= (c as int + 1) * (sz as int))
                        by (nonlinear_arith)
                        requires
                            sz >= 0,
                            c >= 0,
                    ;
                }
                let i = (r as usize) * (w as usize) + (c as usize);
                let x1 = (c as u32) * sz;
                let y1 = (r as u32) * sz;
                let x2 = ((c as u32) + 1) * sz;
                let y2 = ((r as u32) + 1) * sz;
                let ghost img0 = img;

                // boundary walls above and to the left
                let drew_top = grid.cells[i].top.is_none();
                if drew_top {
                    fill_rect(&mut img, x1, y1, (x2 - x1) + wt, wt, 0, 0, 0);
                }
                let ghost img1 = img;
                let drew_left = grid.cells[i].left.is_none();
                if drew_left {
                    fill_rect(&mut img, x1, y1, wt, (y2 - y1) + wt, 0, 0, 0);
                }
                let ghost img2 = img;

                // the wall below, unless a passage leads down
                let mut open_below = false;
                if grid.cells[i].bottom.is_some() {
                    proof {
                        crate::maze::graph::lemma_flat_in_range(wi, hi, r as int + 1, c as int);
                        assert((r as int + 1) * wi == (r as int) * wi + wi) by (nonlinear_arith);
                    }
                    open_below = grid.cells[i].is_linked_to(&grid.cells[i + (w as usize)]);
                }
                if !open_below {
                    fill_rect(&mut img, x1, y2, (x2 - x1) + wt, wt, 0, 0, 0);
                }
                let ghost img3 = img;

                // the wall to the right, unless a passage leads right
                let mut open_right = false;
                if grid.cells[i].right.is_some() {
                    proof {
                        crate::maze::graph::lemma_flat_in_range(wi, hi, r as int, c as int + 1);
                    }
                    open_right = grid.cells[i].is_linked_to(&grid.cells[i + 1]);
                }
                if !open_right {
                    fill_rect(&mut img, x2, y1, wt, (y2 - y1) + wt, 0, 0, 0);
                }

                proof {
                    let ri = r as int;
                    let ci = c as int;
                    let s = self.size as int;
                    let t = self.wall_thickness as int;
                    assert(drew_top <==> ri == 0);
                    assert(drew_left <==> ci == 0);
                    assert(open_right <==> (ci + 1 < wi && grid.linked(
                        grid.flat(ri, ci),
                        grid.flat(ri, ci + 1),
                    )));
                    assert(open_below <==> (ri + 1 < hi && grid.linked(
                        grid.flat(ri, ci),
                        grid.flat(ri + 1, ci),
                    )));

                    // every east boundary but this cell's own is untouched
                    assert forall|r2: int, c2: int, px: int, py: int|
                        0 <= r2 < hi && 0 <= c2 < wi - 1 && !(r2 == ri && c2 == ci)
                            && #[trigger] self.east_boundary(r2, c2, px, py)
                            implies image_pixels(img)[(px, py)] == image_pixels(img0)[(px, py)] by {
                        self.lemma_east_boundary_in_image(wi, hi, r2, c2, px, py);
                        if !open_right && (x2 as int) <= px < x2 + wt && (y1 as int) <= py < y2
                            + wt {
                            if c2 != ci {
                                lemma_band_separation(ci + 1, c2 + 1, s, t, px);
                            }
                            lemma_span_vs_interior(ri, r2, s, t, py);
                        }
                        assert(image_pixels(img)[(px, py)] == image_pixels(img3)[(px, py)]);
                        if !open_below && (x1 as int) <= px < x2 + wt && (y2 as int) <= py < y2
                            + wt {
                            lemma_band_vs_interior(ri + 1, r2, s, t, py);
                        }
                        assert(image_pixels(img3)[(px, py)] == image_pixels(img2)[(px, py)]);
                        if drew_left && (x1 as int) <= px < x1 + wt && (y1 as int) <= py < y2
                            + wt {
                            lemma_mul_mono(1, c2 + 1, s);
                        }
                        assert(image_pixels(img2)[(px, py)] == image_pixels(img1)[(px, py)]);
                        if drew_top && (x1 as int) <= px < x2 + wt && (y1 as int) <= py < y1
                            + wt {
                            lemma_mul_mono(0, r2, s);
                        }
                        assert(image_pixels(img1)[(px, py)] == image_pixels(img0)[(px, py)]);
                    }

                    // every south boundary but this cell's own is untouched
                    assert forall|r2: int, c2: int, px: int, py: int|
                        0 <= r2 < hi - 1 && 0 <= c2 < wi && !(r2 == ri && c2 == ci)
                            && #[trigger] self.south_boundary(r2, c2, px, py)
                            implies image_pixels(img)[(px, py)] == image_pixels(img0)[(px, py)] by {
                        self.lemma_south_boundary_in_image(wi, hi, r2, c2, px, py);
                        if !open_right && (x2 as int) <= px < x2 + wt && (y1 as int) <= py < y2
                            + wt {
                            lemma_band_vs_interior(ci + 1, c2, s, t, px);
                        }
                        assert(image_pixels(img)[(px, py)] == image_pixels(img3)[(px, py)]);
                        if !open_below && (x1 as int) <= px < x2 + wt && (y2 as int) <= py < y2
                            + wt {
                            if r2 != ri {
                                lemma_band_separation(ri + 1, r2 + 1, s, t, py);
                            }
                            lemma_span_vs_interior(ci, c2, s, t, px);
                        }
                        assert(image_pixels(img3)[(px, py)] == image_pixels(img2)[(px, py)]);
                        if drew_left && (x1 as int) <= px < x1 + wt && (y1 as int) <= py < y2
                            + wt {
                            lemma_mul_mono(0, c2, s);
                        }
                        assert(image_pixels(img2)[(px, py)] == image_pixels(img1)[(px, py)]);
                        if drew_top && (x1 as int) <= px < x2 + wt && (y1 as int) <= py < y1
                            + wt {
                            lemma_mul_mono(1, r2 + 1, s);
                        }
                        assert(image_pixels(img1)[(px, py)] == image_pixels(img0)[(px, py)]);
                    }

                    // this cell's own east boundary now shows its passage state
                    if ci < wi - 1 {
                        assert forall|px: int, py: int|
                            #[trigger] self.east_boundary(ri, ci, px, py)
                                implies image_pixels(img)[(px, py)] == east_value(
                                *grid,
                                ri,
                                ci,
                            ) by {
                            self.lemma_east_boundary_in_image(wi, hi, ri, ci, px, py);
                            if !open_right {
                                assert((x2 as int) <= px < x2 + wt);
                                assert((y1 as int) <= py < y2 + wt);
                            } else {
                                assert(image_pixels(img)[(px, py)] == image_pixels(img3)[(px,
                                    py)]);
                                if !open_below && (x1 as int) <= px < x2 + wt && (y2 as int) <= py
                                    < y2 + wt {
                                    lemma_band_vs_interior(ri + 1, ri, s, t, py);
                                }
                                assert(image_pixels(img3)[(px, py)] == image_pixels(img2)[(px,
                                    py)]);
                                if drew_left && (x1 as int) <= px < x1 + wt && (y1 as int) <= py
                                    < y2 + wt {
                                    lemma_mul_mono(1, ci + 1, s);
                                }
                                assert(image_pixels(img2)[(px, py)] == image_pixels(img1)[(px,
                                    py)]);
                                if drew_top && (x1 as int) <= px < x2 + wt && (y1 as int) <= py
                                    < y1 + wt {
                                    lemma_mul_mono(0, ri, s);
                                }
                                assert(image_pixels(img1)[(px, py)] == image_pixels(img0)[(px,
                                    py)]);
                                assert(self.east_is(img0, ri, ci, background_colour()));
                            }
                        }
                        assert(self.east_is(img, ri, ci, east_value(*grid, ri, ci)));
                    }

                    // and so does its own south boundary
                    if ri < hi - 1 {
                        assert forall|px: int, py: int|
                            #[trigger] self.south_boundary(ri, ci, px, py)
                                implies image_pixels(img)[(px, py)] == south_value(
                                *grid,
                                ri,
                                ci,
                            ) by {
                            self.lemma_south_boundary_in_image(wi, hi, ri, ci, px, py);
                            if !open_right && (x2 as int) <= px < x2 + wt && (y1 as int) <= py
                                < y2 + wt {
                                lemma_band_vs_interior(ci + 1, ci, s, t, px);
                            }
                            assert(image_pixels(img)[(px, py)] == image_pixels(img3)[(px, py)]);
                            if !open_below {
                                assert((x1 as int) <= px < x2 + wt);
                                assert((y2 as int) <= py < y2 + wt);
                            } else {
                                assert(image_pixels(img3)[(px, py)] == image_pixels(img2)[(px,
                                    py)]);
                                if drew_left && (x1 as int) <= px < x1 + wt && (y1 as int) <= py
                                    < y2 + wt {
                                    lemma_mul_mono(0, ci, s);
                                }
                                assert(image_pixels(img2)[(px, py)] == image_pixels(img1)[(px,
                                    py)]);
                                if drew_top && (x1 as int) <= px < x2 + wt && (y1 as int) <= py
                                    < y1 + wt {
                                    lemma_mul_mono(1, ri + 1, s);
                                }
                                assert(image_pixels(img1)[(px, py)] == image_pixels(img0)[(px,
                                    py)]);
                                assert(self.south_is(img0, ri, ci, background_colour()));
                            }
                        }
                        assert(self.south_is(img, ri, ci, south_value(*grid, ri, ci)));
                    }

                    // reassemble the boundary bookkeeping one cell further
                    assert forall|r2: int, c2: int|
                        0 <= r2 < hi && 0 <= c2 < wi - 1 && (r2 < ri || (r2 == ri && c2 < ci
                            + 1)) implies #[trigger] self.east_is(
                        img,
                        r2,
                        c2,
                        east_value(*grid, r2, c2),
                    ) by {
                        if !(r2 == ri && c2 == ci) {
                            assert(self.east_is(img0, r2, c2, east_value(*grid, r2, c2)));
                            assert forall|px: int, py: int|
                                #[trigger] self.east_boundary(r2, c2, px, py)
                                    implies image_pixels(img)[(px, py)] == east_value(
                                    *grid,
                                    r2,
                                    c2,
                                ) by {}
                        }
                    }
                    assert forall|r2: int, c2: int|
                        0 <= r2 < hi && 0 <= c2 < wi - 1 && !(r2 < ri || (r2 == ri && c2 < ci
                            + 1)) implies #[trigger] self.east_is(
                        img,
                        r2,
                        c2,
                        background_colour(),
                    ) by {
                        assert(self.east_is(img0, r2, c2, background_colour()));
                        assert forall|px: int, py: int|
                            #[trigger] self.east_boundary(r2, c2, px, py)
                                implies image_pixels(img)[(px, py)] == background_colour() by {}
                    }
                    assert forall|r2: int, c2: int|
                        0 <= r2 < hi - 1 && 0 <= c2 < wi && (r2 < ri || (r2 == ri && c2 < ci
                            + 1)) implies #[trigger] self.south_is(
                        img,
                        r2,
                        c2,
                        south_value(*grid, r2, c2),
                    ) by {
                        if !(r2 == ri && c2 == ci) {
                            assert(self.south_is(img0, r2, c2, south_value(*grid, r2, c2)));
                            assert forall|px: int, py: int|
                                #[trigger] self.south_boundary(r2, c2, px, py)
                                    implies image_pixels(img)[(px, py)] == south_value(
                                    *grid,
                                    r2,
                                    c2,
                                ) by {}
                        }
                    }
                    assert forall|r2: int, c2: int|
                        0 <= r2 < hi - 1 && 0 <= c2 < wi && !(r2 < ri || (r2 == ri && c2 < ci
                            + 1)) implies #[trigger] self.south_is(
                        img,
                        r2,
                        c2,
                        background_colour(),
                    ) by {
                        assert(self.south_is(img0, r2, c2, background_colour()));
                        assert forall|px: int, py: int|
                            #[trigger] self.south_boundary(r2, c2, px, py)
                                implies image_pixels(img)[(px, py)] == background_colour() by {}
                    }
                }

                c = c + 1;
            }
            r = r + 1;
        }
        proof {
            assert forall|r2: int, c2: int, px: int, py: int|
                0 <= r2 < grid.height && 0 <= c2 < grid.width - 1 && #[trigger] self.east_boundary(
                    r2,
                    c2,
                    px,
                    py,
                ) implies image_pixels(img)[(px, py)] == east_value(*grid, r2, c2) by {
                assert(self.east_is(img, r2, c2, east_value(*grid, r2, c2)));
            }
            assert forall|r2: int, c2: int, px: int, py: int|
                0 <= r2 < grid.height - 1 && 0 <= c2 < grid.width
                    && #[trigger] self.south_boundary(r2, c2, px, py) implies image_pixels(img)[(px,
                py)] == south_value(*grid, r2, c2) by {
                assert(self.south_is(img, r2, c2, south_value(*grid, r2, c2)));
            }
        }
        img
    }
}

} // verus!
