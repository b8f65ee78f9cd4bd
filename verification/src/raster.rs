//! RGBA images as rows of pixels, and the pixel operations of balloon
//! composition and preview drawing: recolouring, mirroring, colour-key
//! transparency, alpha blending, and the lines and marks of the overlay.
use vstd::prelude::*;
use crate::color::Rgb;

verus! {

/// One RGBA pixel.
#[derive(Debug, Clone, Copy, PartialEq, Eq, Structural)]
pub struct Pixel(pub u8, pub u8, pub u8, pub u8);

/// An RGBA image: `height` rows of `width` pixels each, top row first.
pub struct Image {
    width: u32,
    height: u32,
    rows: Vec<Vec<Pixel>>,
}

/// The pixels of an image, row by row.
pub open spec fn pixels_of(rows: Seq<Vec<Pixel>>) -> Seq<Seq<Pixel>> {
    rows.map_values(|r: Vec<Pixel>| r@)
}

/// `rows` is a `w` × `h` grid.
pub open spec fn is_grid(p: Seq<Seq<Pixel>>, w: int, h: int) -> bool {
    p.len() == h && forall|y: int| 0 <= y < h ==> (#[trigger] p[y]).len() == w
}

impl View for Image {
    type V = Seq<Seq<Pixel>>;

    closed spec fn view(&self) -> Seq<Seq<Pixel>> {
        pixels_of(self.rows@)
    }
}

impl Image {
    /// Width in pixels.
    pub closed spec fn w(&self) -> int {
        self.width as int
    }

    /// Height in pixels.
    pub closed spec fn h(&self) -> int {
        self.height as int
    }

    /// Well-formed: a `w` × `h` grid, each side at most `i32::MAX`.
    pub closed spec fn wf(&self) -> bool {
        &&& is_grid(self@, self.w(), self.h())
        &&& self.width <= i32::MAX
        &&& self.height <= i32::MAX
    }

    /// A well-formed image's sides fit in an `i32`.
    pub proof fn lemma_sides(&self)
        requires
            self.wf(),
        ensures
            0 <= self.w() <= i32::MAX,
            0 <= self.h() <= i32::MAX,
    {
    }

    /// A well-formed image is a `w` × `h` grid.
    pub proof fn lemma_grid(&self)
        requires
            self.wf(),
        ensures
            is_grid(self@, self.w(), self.h()),
    {
    }

    /// Whether the image is well-formed (see `wf`); every image the
    /// library makes is.
    pub fn is_wf(&self) -> (r: bool)
        ensures
            r == self.wf(),
    {
        if self.width > 2147483647u32 || self.height > 2147483647u32 || self.rows.len() != self.height as usize {
            return false;
        }
        let mut y: usize = 0;
        while y < self.rows.len()
            invariant
                y <= self.rows@.len(),
                self.rows@.len() == self.height,
                forall|j: int| 0 <= j < y ==> (#[trigger] self.rows@[j])@.len() == self.width,
            decreases self.rows@.len() - y,
        {
            if self.rows[y].len() != self.width as usize {
                assert(self@[y as int] == self.rows@[y as int]@);
                return false;
            }
            y = y + 1;
        }
        assert forall|j: int| 0 <= j < self.h() implies (#[trigger] self@[j]).len() == self.w() by {
            assert(self@[j] == self.rows@[j]@);
        }
        true
    }

    /// The pixel at column `x`, row `y`.
    pub open spec fn at(&self, x: int, y: int) -> Pixel {
        self@[y][x]
    }

    proof fn lemma_wf(&self)
        requires
            self.wf(),
        ensures
            self.rows@.len() == self.h(),
            forall|y: int| 0 <= y < self.h() ==> (#[trigger] self.rows@[y])@.len() == self.w(),
            0 <= self.w() <= i32::MAX,
            0 <= self.h() <= i32::MAX,
    {
        assert forall|y: int| 0 <= y < self.h() implies (#[trigger] self.rows@[y])@.len() == self.w() by {
            assert(self@[y] == self.rows@[y]@);
        }
    }

    /// An image of `w` × `h` pixels, all `fill`.
    pub fn filled(w: u32, h: u32, fill: Pixel) -> (img: Image)
        requires
            w <= i32::MAX,
            h <= i32::MAX,
        ensures
            img.wf(),
            img.w() == w,
            img.h() == h,
            forall|x: int, y: int| 0 <= x < w && 0 <= y < h ==> img.at(x, y) == fill,
    {
        let mut rows: Vec<Vec<Pixel>> = Vec::new();
        let mut y: u32 = 0;
        while y < h
            invariant
                y <= h,
                rows@.len() == y,
                forall|j: int| 0 <= j < y ==> (#[trigger] rows@[j])@.len() == w,
                forall|j: int, x: int| 0 <= j < y && 0 <= x < w ==> rows@[j]@[x] == fill,
            decreases h - y,
        {
            let mut row: Vec<Pixel> = Vec::new();
            let mut x: u32 = 0;
            while x < w
                invariant
                    x <= w,
                    row@.len() == x,
                    forall|i: int| 0 <= i < x ==> row@[i] == fill,
                decreases w - x,
            {
                row.push(fill);
                x = x + 1;
            }
            rows.push(row);
            y = y + 1;
        }
        let img = Image { width: w, height: h, rows };
        assert forall|j: int| 0 <= j < h implies (#[trigger] img@[j]).len() == w by {
            assert(img@[j] == img.rows@[j]@);
        }
        img
    }

    /// A transparent black image (`RgbaImage::new`).
    pub fn new(w: u32, h: u32) -> (img: Image)
        requires
            w <= i32::MAX,
            h <= i32::MAX,
        ensures
            img.wf(),
            img.w() == w,
            img.h() == h,
            forall|x: int, y: int| 0 <= x < w && 0 <= y < h ==> img.at(x, y) == Pixel(0, 0, 0, 0),
    {
        Image::filled(w, h, Pixel(0, 0, 0, 0))
    }

    /// Width in pixels.
    pub fn width(&self) -> (r: u32)
        ensures
            r == self.w(),
    {
        self.width
    }

    /// Height in pixels.
    pub fn height(&self) -> (r: u32)
        ensures
            r == self.h(),
    {
        self.height
    }

    /// The pixel at `(x, y)`.
    pub fn get_pixel(&self, x: u32, y: u32) -> (p: Pixel)
        requires
            self.wf(),
            x < self.w(),
            y < self.h(),
        ensures
            p == self.at(x as int, y as int),
    {
        proof {
            self.lemma_wf();
        }
        self.rows[y as usize][x as usize]
    }

    /// Sets the pixel at `(x, y)`.
    pub fn put_pixel(&mut self, x: u32, y: u32, p: Pixel)
        requires
            old(self).wf(),
            x < old(self).w(),
            y < old(self).h(),
        ensures
            final(self).wf(),
            final(self).w() == old(self).w(),
            final(self).h() == old(self).h(),
            final(self)@ == old(self)@.update(y as int, old(self)@[y as int].update(x as int, p)),
    {
        proof {
            self.lemma_wf();
        }
        let ghost old_rows = self.rows@;
        let mut row: Vec<Pixel> = Vec::new();
        std::mem::swap(&mut row, &mut self.rows[y as usize]);
        assert(row@ == old_rows[y as int]@);
        row.set(x as usize, p);
        self.rows.set(y as usize, row);
        proof {
            assert(self@ =~= old(self)@.update(y as int, old(self)@[y as int].update(x as int, p)));
            assert forall|j: int| 0 <= j < self.h() implies (#[trigger] self@[j]).len() == self.w() by {
                if j != y {
                    assert(self@[j] == old(self)@[j]);
                }
            }
        }
    }
}

/// Same size as before, and each pixel is `v` where `sel` holds and as
/// before elsewhere.
pub open spec fn painted(
    new: Seq<Seq<Pixel>>,
    old: Seq<Seq<Pixel>>,
    w: int,
    h: int,
    sel: spec_fn(int, int) -> bool,
    v: Pixel,
) -> bool {
    &&& is_grid(new, w, h)
    &&& forall|i: int, j: int|
        0 <= i < w && 0 <= j < h ==> #[trigger] new[j][i] == (if sel(i, j) {
            v
        } else {
            old[j][i]
        })
}

/// Sets the pixels `lo..hi` of row `y`, all inside the image.
fn paint_row(img: &mut Image, y: u32, lo: u32, hi: u32, v: Pixel)
    requires
        old(img).wf(),
        y < old(img).h(),
        lo <= hi <= old(img).w(),
    ensures
        final(img).wf(),
        final(img).w() == old(img).w(),
        final(img).h() == old(img).h(),
        painted(
            final(img)@,
            old(img)@,
            old(img).w(),
            old(img).h(),
            |i: int, j: int| j == y && lo <= i < hi,
            v,
        ),
{
    let mut x = lo;
    while x < hi
        invariant
            lo <= x <= hi <= img.w(),
            y < img.h(),
            img.wf(),
            img.w() == old(img).w(),
            img.h() == old(img).h(),
            forall|i: int, j: int|
                0 <= i < img.w() && 0 <= j < img.h() ==> #[trigger] img@[j][i] == (if j == y && lo <= i
                    < x {
                    v
                } else {
                    old(img)@[j][i]
                }),
        decreases hi - x,
    {
        img.put_pixel(x, y, v);
        x = x + 1;
    }
}

/// Sets the pixels `lo..=hi` of column `x`, all inside the image.
fn paint_column(img: &mut Image, x: u32, lo: u32, hi: u32, v: Pixel)
    requires
        old(img).wf(),
        x < old(img).w(),
        lo <= hi + 1,
        hi < old(img).h(),
    ensures
        final(img).wf(),
        final(img).w() == old(img).w(),
        final(img).h() == old(img).h(),
        painted(
            final(img)@,
            old(img)@,
            old(img).w(),
            old(img).h(),
            |i: int, j: int| i == x && lo <= j <= hi,
            v,
        ),
{
    let mut y = lo;
    while y <= hi
        invariant
            lo <= y <= hi + 1,
            hi < img.h(),
            x < img.w(),
            img.wf(),
            img.w() == old(img).w(),
            img.h() == old(img).h(),
            forall|i: int, j: int|
                0 <= i < img.w() && 0 <= j < img.h() ==> #[trigger] img@[j][i] == (if i == x && lo <= j
                    < y {
                    v
                } else {
                    old(img)@[j][i]
                }),
        decreases hi + 1 - y,
    {
        img.put_pixel(x, y, v);
        y = y + 1;
    }
}

/// Sets pixel `(x, y)` to `color` with alpha `alpha`; outside the image nothing happens.
pub fn set_px(img: &mut Image, x: i32, y: i32, color: Rgb, alpha: u8)
    requires
        old(img).wf(),
    ensures
        final(img).wf(),
        final(img).w() == old(img).w(),
        final(img).h() == old(img).h(),
        painted(
            final(img)@,
            old(img)@,
            old(img).w(),
            old(img).h(),
            |i: int, j: int| i == x && j == y,
            Pixel(color.0, color.1, color.2, alpha),
        ),
{
    if x < 0 || y < 0 || x >= img.width() as i32 || y >= img.height() as i32 {
        return;
    }
    img.put_pixel(x as u32, y as u32, Pixel(color.0, color.1, color.2, alpha));
}

/// Sets the pixels `x0..x1` of row `y` (clipped to the image).
pub fn draw_hline(img: &mut Image, x0: i32, y: i32, x1: i32, color: Rgb, alpha: u8)
    requires
        old(img).wf(),
    ensures
        final(img).wf(),
        final(img).w() == old(img).w(),
        final(img).h() == old(img).h(),
        painted(
            final(img)@,
            old(img)@,
            old(img).w(),
            old(img).h(),
            |i: int, j: int| j == y && x0 <= i < x1,
            Pixel(color.0, color.1, color.2, alpha),
        ),
{
    let v = Pixel(color.0, color.1, color.2, alpha);
    let w = img.width() as i32;
    if y < 0 || y >= img.height() as i32 {
        return;
    }
    let lo = if x0 > 0 { x0 } else { 0 };
    let hi = if x1 < w { x1 } else { w };
    if lo >= hi {
        return;
    }
    paint_row(img, y as u32, lo as u32, hi as u32, v);
}

/// Sets the pixels `y0..=y1` of column `x` (clipped to the image).
pub fn draw_vline(img: &mut Image, x: i32, y0: i32, y1: i32, color: Rgb, alpha: u8)
    requires
        old(img).wf(),
    ensures
        final(img).wf(),
        final(img).w() == old(img).w(),
        final(img).h() == old(img).h(),
        painted(
            final(img)@,
            old(img)@,
            old(img).w(),
            old(img).h(),
            |i: int, j: int| i == x && y0 <= j <= y1,
            Pixel(color.0, color.1, color.2, alpha),
        ),
{
    let v = Pixel(color.0, color.1, color.2, alpha);
    let h = img.height() as i32;
    if x < 0 || x >= img.width() as i32 {
        return;
    }
    let lo = if y0 > 0 { y0 } else { 0 };
    let hi = if y1 < h - 1 { y1 } else { h - 1 };
    if lo > hi {
        return;
    }
    paint_column(img, x as u32, lo as u32, hi as u32, v);
}

/// The outline of the rectangle with corners `(x0, y0)` and `(x1, y1)`, both included.
pub open spec fn on_outline(i: int, j: int, x0: int, y0: int, x1: int, y1: int) -> bool {
    ||| (j == y0 || j == y1) && x0 <= i <= x1
    ||| (i == x0 || i == x1) && y0 <= j <= y1
}

/// Draws the outline of a rectangle, corners included (clipped to the image).
pub fn draw_rect_outline(img: &mut Image, x0: i32, y0: i32, x1: i32, y1: i32, color: Rgb, alpha: u8)
    requires
        old(img).wf(),
        x1 < i32::MAX,
    ensures
        final(img).wf(),
        final(img).w() == old(img).w(),
        final(img).h() == old(img).h(),
        painted(
            final(img)@,
            old(img)@,
            old(img).w(),
            old(img).h(),
            |i: int, j: int| on_outline(i, j, x0 as int, y0 as int, x1 as int, y1 as int),
            Pixel(color.0, color.1, color.2, alpha),
        ),
{
    let ghost p0 = img@;
    draw_hline(img, x0, y0, x1 + 1, color, alpha);
    let ghost p1 = img@;
    draw_hline(img, x0, y1, x1 + 1, color, alpha);
    let ghost p2 = img@;
    draw_vline(img, x0, y0, y1, color, alpha);
    let ghost p3 = img@;
    draw_vline(img, x1, y0, y1, color, alpha);
    proof {
        let w = old(img).w();
        let h = old(img).h();
        assert forall|i: int, j: int| 0 <= i < w && 0 <= j < h implies #[trigger] img@[j][i] == (if on_outline(i, j, x0 as int, y0 as int, x1 as int, y1 as int) {
            Pixel(color.0, color.1, color.2, alpha)
        } else {
            p0[j][i]
        }) by {
            assert(img@[j][i] == (if i == x1 && y0 <= j <= y1 { Pixel(color.0, color.1, color.2, alpha) } else { p3[j][i] }));
            assert(p3[j][i] == (if i == x0 && y0 <= j <= y1 { Pixel(color.0, color.1, color.2, alpha) } else { p2[j][i] }));
            assert(p2[j][i] == (if j == y1 && x0 <= i < x1 + 1 { Pixel(color.0, color.1, color.2, alpha) } else { p1[j][i] }));
            assert(p1[j][i] == (if j == y0 && x0 <= i < x1 + 1 { Pixel(color.0, color.1, color.2, alpha) } else { p0[j][i] }));
        }
    }
}

/// The alpha-blend of `color` at opacity `alpha` over pixel `p`
/// (integer "source over", as the preview draws it).
pub open spec fn blended(p: Pixel, color: Rgb, alpha: u8) -> Pixel {
    let sa = alpha as int;
    let da = p.3 as int;
    let oa = sa + da * (255 - sa) / 255;
    let out_a = if oa < 255 {
        oa
    } else {
        255
    };
    let div = if out_a > 1 {
        out_a
    } else {
        1
    };
    Pixel(
        ((color.0 * sa + p.0 * da * (255 - sa) / 255) / div) as u8,
        ((color.1 * sa + p.1 * da * (255 - sa) / 255) / div) as u8,
        ((color.2 * sa + p.2 * da * (255 - sa) / 255) / div) as u8,
        out_a as u8,
    )
}

/// One channel of `blended`.
fn blend_channel(c: u8, d: u8, sa: u32, da: u32, div: u32) -> (r: u8)
    requires
        sa <= 255,
        da <= 255,
        1 <= div,
    ensures
        r == ((c * sa + d * da * (255 - sa) / 255) / div as int) as u8,
{
    assert(c as u32 * sa <= 255 * 255) by (nonlinear_arith)
        requires
            c <= 255,
            sa <= 255,
    ;
    assert(d as u32 * da <= 255 * 255) by (nonlinear_arith)
        requires
            d <= 255,
            da <= 255,
    ;
    assert((d as u32 * da) * (255 - sa) <= 255 * 255 * 255) by (nonlinear_arith)
        requires
            d as u32 * da <= 255 * 255,
            sa <= 255,
    ;
    let t = (c as u32 * sa + d as u32 * da * (255 - sa) / 255) / div;
    t as u8
}

/// `blended` on values.
fn blend_pixel(p: Pixel, color: Rgb, alpha: u8) -> (r: Pixel)
    ensures
        r == blended(p, color, alpha),
{
    let sa = alpha as u32;
    let da = p.3 as u32;
    assert(da * (255 - sa) <= 255 * 255) by (nonlinear_arith)
        requires
            da <= 255,
            sa <= 255,
    ;
    let oa = sa + da * (255 - sa) / 255;
    let out_a = if oa < 255 { oa } else { 255 };
    let div = if out_a > 1 { out_a } else { 1 };
    Pixel(
        blend_channel(color.0, p.0, sa, da, div),
        blend_channel(color.1, p.1, sa, da, div),
        blend_channel(color.2, p.2, sa, da, div),
        out_a as u8,
    )
}

/// Blends `color` at opacity `alpha` over pixel `(x, y)`; outside the
/// image nothing happens.
pub fn blend_px(img: &mut Image, x: i32, y: i32, color: Rgb, alpha: u8)
    requires
        old(img).wf(),
    ensures
        final(img).wf(),
        final(img).w() == old(img).w(),
        final(img).h() == old(img).h(),
        forall|i: int, j: int|
            0 <= i < old(img).w() && 0 <= j < old(img).h() ==> #[trigger] final(img)@[j][i] == (if i == x
                && j == y {
                blended(old(img)@[j][i], color, alpha)
            } else {
                old(img)@[j][i]
            }),
{
    if x < 0 || y < 0 || x >= img.width() as i32 || y >= img.height() as i32 {
        return;
    }
    let p = img.get_pixel(x as u32, y as u32);
    let q = blend_pixel(p, color, alpha);
    img.put_pixel(x as u32, y as u32, q);
}

/// Blends `color` at opacity `alpha` over the pixels `x0..x1` × `y0..y1`
/// (clipped to the image).
pub fn fill_rect(img: &mut Image, x0: i32, y0: i32, x1: i32, y1: i32, color: Rgb, alpha: u8)
    requires
        old(img).wf(),
    ensures
        final(img).wf(),
        final(img).w() == old(img).w(),
        final(img).h() == old(img).h(),
        forall|i: int, j: int|
            0 <= i < old(img).w() && 0 <= j < old(img).h() ==> #[trigger] final(img)@[j][i] == (if x0 <= i
                < x1 && y0 <= j < y1 {
                blended(old(img)@[j][i], color, alpha)
            } else {
                old(img)@[j][i]
            }),
{
    let w = img.width() as i32;
    let h = img.height() as i32;
    let ylo = if y0 > 0 { y0 } else { 0 };
    let yhi = if y1 < h { y1 } else { h };
    let xlo = if x0 > 0 { x0 } else { 0 };
    let xhi = if x1 < w { x1 } else { w };
    let mut y = ylo;
    while y < yhi
        invariant
            img.wf(),
            img.w() == old(img).w() == w,
            img.h() == old(img).h() == h,
            ylo <= y,
            y == ylo || y <= yhi,
            ylo >= 0,
            yhi <= h,
            yhi == (if y1 < h { y1 } else { h }),
            xlo >= 0,
            xhi <= w,
            xlo == (if x0 > 0 { x0 } else { 0 }),
            xhi == (if x1 < w { x1 } else { w }),
            ylo == (if y0 > 0 { y0 } else { 0 }),
            forall|i: int, j: int|
                0 <= i < w && 0 <= j < h ==> #[trigger] img@[j][i] == (if x0 <= i < x1 && y0 <= j < y1
                    && j < y {
                    blended(old(img)@[j][i], color, alpha)
                } else {
                    old(img)@[j][i]
                }),
        decreases yhi - y,
    {
        let ghost row_start = img@;
        let mut x = xlo;
        while x < xhi
            invariant
                img.wf(),
                img.w() == old(img).w() == w,
                img.h() == old(img).h() == h,
                0 <= y < h,
                xlo <= x,
                x == xlo || x <= xhi,
                xlo >= 0,
                xhi <= w,
                xlo == (if x0 > 0 { x0 } else { 0 }),
                xhi == (if x1 < w { x1 } else { w }),
                forall|i: int, j: int|
                    0 <= i < w && 0 <= j < h ==> #[trigger] img@[j][i] == (if j == y && xlo <= i < x {
                        blended(row_start[j][i], color, alpha)
                    } else {
                        row_start[j][i]
                    }),
            decreases xhi - x,
        {
            blend_px(img, x, y, color, alpha);
            x = x + 1;
        }
        assert(y0 <= y < y1);
        y = y + 1;
    }
}

/// `x` fits in an `i32`.
pub open spec fn fits32(x: int) -> bool {
    i32::MIN <= x <= i32::MAX
}

/// Whether `(i, j)` of the destination lies under a visible pixel of `src`
/// pasted at `(px, py)`.
pub open spec fn under_paste(src: &Image, px: int, py: int, i: int, j: int) -> bool {
    &&& px <= i < px + src.w()
    &&& py <= j < py + src.h()
    &&& src.at(i - px, j - py).3 != 0
}

/// Blends `src` over `dst` with its top-left corner at `(px, py)`; pixels
/// of `src` with alpha 0 and pixels falling outside `dst` are skipped.
pub fn alpha_paste(dst: &mut Image, src: &Image, px: i32, py: i32)
    requires
        old(dst).wf(),
        src.wf(),
        src.w() > 0 && src.h() > 0 ==> fits32(px + src.w() - 1) && fits32(py + src.h() - 1),
    ensures
        final(dst).wf(),
        final(dst).w() == old(dst).w(),
        final(dst).h() == old(dst).h(),
        forall|i: int, j: int|
            0 <= i < old(dst).w() && 0 <= j < old(dst).h() ==> #[trigger] final(dst)@[j][i] == (if under_paste(
                src,
                px as int,
                py as int,
                i,
                j,
            ) {
                blended(
                    old(dst)@[j][i],
                    Rgb(src.at(i - px, j - py).0, src.at(i - px, j - py).1, src.at(i - px, j - py).2),
                    src.at(i - px, j - py).3,
                )
            } else {
                old(dst)@[j][i]
            }),
{
    let dw = dst.width() as i32;
    let dh = dst.height() as i32;
    let sw = src.width();
    let sh = src.height();
    let mut sy: u32 = 0;
    while sy < sh
        invariant
            dst.wf(),
            src.wf(),
            sw == src.w(),
            sh == src.h(),
            dst.w() == old(dst).w() == dw,
            dst.h() == old(dst).h() == dh,
            sy <= sh,
            sw > 0 && sh > 0 ==> fits32(px + sw - 1) && fits32(py + sh - 1),
            forall|i: int, j: int|
                0 <= i < dw && 0 <= j < dh ==> #[trigger] dst@[j][i] == (if under_paste(src, px as int, py as int, i, j)
                    && j < py + sy {
                    blended(
                        old(dst)@[j][i],
                        Rgb(src.at(i - px, j - py).0, src.at(i - px, j - py).1, src.at(i - px, j - py).2),
                        src.at(i - px, j - py).3,
                    )
                } else {
                    old(dst)@[j][i]
                }),
        decreases sh - sy,
    {
        let ghost row_start = dst@;
        let mut sx: u32 = 0;
        while sx < sw
            invariant
                dst.wf(),
                src.wf(),
                sw == src.w(),
                sh == src.h(),
                dst.w() == old(dst).w() == dw,
                dst.h() == old(dst).h() == dh,
                sy < sh,
                sx <= sw,
                sw > 0 ==> (fits32(px + sw - 1) && fits32(py + sh - 1)),
                forall|i: int, j: int|
                    0 <= i < dw && 0 <= j < dh ==> #[trigger] dst@[j][i] == (if under_paste(src, px as int, py as int, i, j)
                        && j == py + sy && i < px + sx {
                        blended(
                            row_start[j][i],
                            Rgb(src.at(i - px, j - py).0, src.at(i - px, j - py).1, src.at(i - px, j - py).2),
                            src.at(i - px, j - py).3,
                        )
                    } else {
                        row_start[j][i]
                    }),
            decreases sw - sx,
        {
            let dx = px + sx as i32;
            let dy = py + sy as i32;
            if dx >= 0 && dy >= 0 && dx < dw && dy < dh {
                let sp = src.get_pixel(sx, sy);
                if sp.3 != 0 {
                    let dp = dst.get_pixel(dx as u32, dy as u32);
                    let q = blend_pixel(dp, Rgb(sp.0, sp.1, sp.2), sp.3);
                    dst.put_pixel(dx as u32, dy as u32, q);
                }
            }
            sx = sx + 1;
        }
        sy = sy + 1;
    }
}

/// On the dashes of a horizontal line `x0..=x1` at row `y`: 6 pixels on, 4 off.
pub open spec fn on_dashed_h(i: int, j: int, x0: int, y: int, x1: int) -> bool {
    j == y && x0 <= i <= x1 && (i - x0) % 10 < 6
}

/// On the dashes of a vertical line `y0..=y1` at column `x`: 6 pixels on, 4 off.
pub open spec fn on_dashed_v(i: int, j: int, x: int, y0: int, y1: int) -> bool {
    i == x && y0 <= j <= y1 && (j - y0) % 10 < 6
}

/// A dashed horizontal line from `x0` to `x1` (both included), opaque.
pub fn draw_dashed_hline(img: &mut Image, x0: i32, y: i32, x1: i32, color: Rgb)
    requires
        old(img).wf(),
        x0 <= x1 ==> x1 <= i32::MAX - 10,
    ensures
        final(img).wf(),
        final(img).w() == old(img).w(),
        final(img).h() == old(img).h(),
        painted(
            final(img)@,
            old(img)@,
            old(img).w(),
            old(img).h(),
            |i: int, j: int| on_dashed_h(i, j, x0 as int, y as int, x1 as int),
            Pixel(color.0, color.1, color.2, 255),
        ),
{
    let ghost v = Pixel(color.0, color.1, color.2, 255);
    let mut x = x0;
    let ghost mut k: int = 0;
    while x <= x1
        invariant
            img.wf(),
            img.w() == old(img).w(),
            img.h() == old(img).h(),
            x == x0 + 10 * k,
            v == Pixel(color.0, color.1, color.2, 255),
            k >= 0,
            x0 <= x1 ==> x1 <= i32::MAX - 10,
            x <= x1 + 10 || x == x0,
            forall|i: int, j: int|
                0 <= i < img.w() && 0 <= j < img.h() ==> #[trigger] img@[j][i] == (if on_dashed_h(
                    i,
                    j,
                    x0 as int,
                    y as int,
                    x1 as int,
                ) && i < x {
                    v
                } else {
                    old(img)@[j][i]
                }),
        decreases x1 - x + 10,
    {
        let end = if x + 6 < x1 + 1 { x + 6 } else { x1 + 1 };
        let ghost before = img@;
        draw_hline(img, x, y, end, color, 255);
        let ghost after = img@;
        proof {
            assert forall|i: int, j: int| 0 <= i < img.w() && 0 <= j < img.h() implies #[trigger] img@[j][i] == (if on_dashed_h(i, j, x0 as int, y as int, x1 as int) && i < x + 10 {
                v
            } else {
                old(img)@[j][i]
            }) by {
                assert(after[j][i] == (if j == y && x <= i < end { v } else { before[j][i] }));
                if j == y && x0 <= i && i < x + 10 && i >= x {
                    assert((i - x0) % 10 == i - x) by {
                        assert(i - x0 == 10 * k + (i - x));
                    }
                }
                if j == y && x0 <= i && i < x {
                    assert(i < x + 10);
                }
            }
            k = k + 1;
        }
        x = x + 10;
    }
}

/// A dashed vertical line from `y0` to `y1` (both included), opaque.
pub fn draw_dashed_vline(img: &mut Image, x: i32, y0: i32, y1: i32, color: Rgb)
    requires
        old(img).wf(),
        y0 <= y1 ==> y1 <= i32::MAX - 10,
    ensures
        final(img).wf(),
        final(img).w() == old(img).w(),
        final(img).h() == old(img).h(),
        painted(
            final(img)@,
            old(img)@,
            old(img).w(),
            old(img).h(),
            |i: int, j: int| on_dashed_v(i, j, x as int, y0 as int, y1 as int),
            Pixel(color.0, color.1, color.2, 255),
        ),
{
    let ghost v = Pixel(color.0, color.1, color.2, 255);
    let mut y = y0;
    let ghost mut k: int = 0;
    while y <= y1
        invariant
            img.wf(),
            img.w() == old(img).w(),
            img.h() == old(img).h(),
            y == y0 + 10 * k,
            v == Pixel(color.0, color.1, color.2, 255),
            k >= 0,
            y0 <= y1 ==> y1 <= i32::MAX - 10,
            y <= y1 + 10 || y == y0,
            forall|i: int, j: int|
                0 <= i < img.w() && 0 <= j < img.h() ==> #[trigger] img@[j][i] == (if on_dashed_v(
                    i,
                    j,
                    x as int,
                    y0 as int,
                    y1 as int,
                ) && j < y {
                    v
                } else {
                    old(img)@[j][i]
                }),
        decreases y1 - y + 10,
    {
        let end = if y + 5 < y1 { y + 5 } else { y1 };
        let ghost before = img@;
        draw_vline(img, x, y, end, color, 255);
        let ghost after = img@;
        proof {
            assert forall|i: int, j: int| 0 <= i < img.w() && 0 <= j < img.h() implies #[trigger] img@[j][i] == (if on_dashed_v(i, j, x as int, y0 as int, y1 as int) && j < y + 10 {
                v
            } else {
                old(img)@[j][i]
            }) by {
                assert(after[j][i] == (if i == x && y <= j <= end { v } else { before[j][i] }));
                if i == x && y0 <= j && j < y + 10 && j >= y {
                    assert((j - y0) % 10 == j - y) by {
                        assert(j - y0 == 10 * k + (j - y));
                    }
                }
            }
            k = k + 1;
        }
        y = y + 10;
    }
}

/// On the cross mark centred at `(cx, cy)`, three pixels thick.
pub open spec fn on_cross_outer(i: int, j: int, cx: int, cy: int) -> bool {
    ||| cy - 1 <= j <= cy + 1 && cx - 6 <= i < cx + 7
    ||| cx - 1 <= i <= cx + 1 && cy - 6 <= j <= cy + 6
}

/// On the centre lines of the cross mark at `(cx, cy)`.
pub open spec fn on_cross_inner(i: int, j: int, cx: int, cy: int) -> bool {
    ||| j == cy && cx - 6 <= i < cx + 7
    ||| i == cx && cy - 6 <= j <= cy + 6
}

/// A cross mark: a three-pixel-wide `outer` cross with an `inner` centre line.
pub fn draw_cross(img: &mut Image, cx: i32, cy: i32, outer: Rgb, inner: Rgb)
    requires
        old(img).wf(),
        fits32(cx - 6),
        fits32(cx + 7),
        fits32(cy - 6),
        fits32(cy + 6),
    ensures
        final(img).wf(),
        final(img).w() == old(img).w(),
        final(img).h() == old(img).h(),
        forall|i: int, j: int|
            0 <= i < old(img).w() && 0 <= j < old(img).h() ==> #[trigger] final(img)@[j][i] == (if on_cross_inner(
                i,
                j,
                cx as int,
                cy as int,
            ) {
                Pixel(inner.0, inner.1, inner.2, 255)
            } else if on_cross_outer(i, j, cx as int, cy as int) {
                Pixel(outer.0, outer.1, outer.2, 255)
            } else {
                old(img)@[j][i]
            }),
{
    let ghost o = Pixel(outer.0, outer.1, outer.2, 255);
    let ghost n = Pixel(inner.0, inner.1, inner.2, 255);
    let ghost p0 = img@;
    draw_hline(img, cx - 6, cy - 1, cx + 7, outer, 255);
    let ghost p1 = img@;
    draw_vline(img, cx - 1, cy - 6, cy + 6, outer, 255);
    let ghost p2 = img@;
    draw_hline(img, cx - 6, cy, cx + 7, outer, 255);
    let ghost p3 = img@;
    draw_vline(img, cx, cy - 6, cy + 6, outer, 255);
    let ghost p4 = img@;
    draw_hline(img, cx - 6, cy + 1, cx + 7, outer, 255);
    let ghost p5 = img@;
    draw_vline(img, cx + 1, cy - 6, cy + 6, outer, 255);
    let ghost p6 = img@;
    draw_hline(img, cx - 6, cy, cx + 7, inner, 255);
    let ghost p7 = img@;
    draw_vline(img, cx, cy - 6, cy + 6, inner, 255);
    proof {
        assert forall|i: int, j: int| 0 <= i < old(img).w() && 0 <= j < old(img).h() implies #[trigger] img@[j][i] == (if on_cross_inner(i, j, cx as int, cy as int) {
            n
        } else if on_cross_outer(i, j, cx as int, cy as int) {
            o
        } else {
            p0[j][i]
        }) by {
            assert(p1[j][i] == (if j == cy - 1 && cx - 6 <= i < cx + 7 { o } else { p0[j][i] }));
            assert(p2[j][i] == (if i == cx - 1 && cy - 6 <= j <= cy + 6 { o } else { p1[j][i] }));
            assert(p3[j][i] == (if j == cy && cx - 6 <= i < cx + 7 { o } else { p2[j][i] }));
            assert(p4[j][i] == (if i == cx && cy - 6 <= j <= cy + 6 { o } else { p3[j][i] }));
            assert(p5[j][i] == (if j == cy + 1 && cx - 6 <= i < cx + 7 { o } else { p4[j][i] }));
            assert(p6[j][i] == (if i == cx + 1 && cy - 6 <= j <= cy + 6 { o } else { p5[j][i] }));
            assert(p7[j][i] == (if j == cy && cx - 6 <= i < cx + 7 { n } else { p6[j][i] }));
            assert(img@[j][i] == (if i == cx && cy - 6 <= j <= cy + 6 { n } else { p7[j][i] }));
        }
    }
}

/// On one of the eight outlines around the rectangle `(x0, y0)`–`(x1, y1)`
/// shifted by one pixel in each direction.
pub open spec fn on_overlay_outer(i: int, j: int, x0: int, y0: int, x1: int, y1: int) -> bool {
    ||| on_outline(i, j, x0 - 1, y0 - 1, x1 - 1, y1 - 1)
    ||| on_outline(i, j, x0 - 1, y0, x1 - 1, y1)
    ||| on_outline(i, j, x0 - 1, y0 + 1, x1 - 1, y1 + 1)
    ||| on_outline(i, j, x0, y0 - 1, x1, y1 - 1)
    ||| on_outline(i, j, x0, y0 + 1, x1, y1 + 1)
    ||| on_outline(i, j, x0 + 1, y0 - 1, x1 + 1, y1 - 1)
    ||| on_outline(i, j, x0 + 1, y0, x1 + 1, y1)
    ||| on_outline(i, j, x0 + 1, y0 + 1, x1 + 1, y1 + 1)
}

/// On the dashed outline of the rectangle `(x0, y0)`–`(x1, y1)`.
pub open spec fn on_overlay_inner(i: int, j: int, x0: int, y0: int, x1: int, y1: int) -> bool {
    ||| on_dashed_h(i, j, x0, y0, x1)
    ||| on_dashed_h(i, j, x0, y1, x1)
    ||| on_dashed_v(i, j, x0, y0, y1)
    ||| on_dashed_v(i, j, x1, y0, y1)
}

/// A guide rectangle: a three-pixel-wide `outer` outline with an `inner`
/// dashed line along its middle.
pub fn draw_overlay_rect(img: &mut Image, x0: i32, y0: i32, x1: i32, y1: i32, outer: Rgb, inner: Rgb)
    requires
        old(img).wf(),
        fits32(x0 - 1),
        fits32(x0 + 1),
        fits32(y0 - 1),
        fits32(y0 + 1),
        fits32(x1 - 1),
        fits32(y1 - 1),
        fits32(y1 + 1),
        x1 + 2 <= i32::MAX,
        x0 <= x1 ==> x1 <= i32::MAX - 10,
        y0 <= y1 ==> y1 <= i32::MAX - 10,
    ensures
        final(img).wf(),
        final(img).w() == old(img).w(),
        final(img).h() == old(img).h(),
        forall|i: int, j: int|
            0 <= i < old(img).w() && 0 <= j < old(img).h() ==> #[trigger] final(img)@[j][i] == (if on_overlay_inner(
                i,
                j,
                x0 as int,
                y0 as int,
                x1 as int,
                y1 as int,
            ) {
                Pixel(inner.0, inner.1, inner.2, 255)
            } else if on_overlay_outer(i, j, x0 as int, y0 as int, x1 as int, y1 as int) {
                Pixel(outer.0, outer.1, outer.2, 255)
            } else {
                old(img)@[j][i]
            }),
{
    let ghost o = Pixel(outer.0, outer.1, outer.2, 255);
    let ghost n = Pixel(inner.0, inner.1, inner.2, 255);
    let ghost p0 = img@;
    draw_rect_outline(img, x0 - 1, y0 - 1, x1 - 1, y1 - 1, outer, 255);
    let ghost p1 = img@;
    draw_rect_outline(img, x0 - 1, y0, x1 - 1, y1, outer, 255);
    let ghost p2 = img@;
    draw_rect_outline(img, x0 - 1, y0 + 1, x1 - 1, y1 + 1, outer, 255);
    let ghost p3 = img@;
    draw_rect_outline(img, x0, y0 - 1, x1, y1 - 1, outer, 255);
    let ghost p4 = img@;
    draw_rect_outline(img, x0, y0 + 1, x1, y1 + 1, outer, 255);
    let ghost p5 = img@;
    draw_rect_outline(img, x0 + 1, y0 - 1, x1 + 1, y1 - 1, outer, 255);
    let ghost p6 = img@;
    draw_rect_outline(img, x0 + 1, y0, x1 + 1, y1, outer, 255);
    let ghost p7 = img@;
    draw_rect_outline(img, x0 + 1, y0 + 1, x1 + 1, y1 + 1, outer, 255);
    let ghost p8 = img@;
    draw_dashed_hline(img, x0, y0, x1, inner);
    let ghost q1 = img@;
    draw_dashed_hline(img, x0, y1, x1, inner);
    let ghost q2 = img@;
    draw_dashed_vline(img, x0, y0, y1, inner);
    let ghost q3 = img@;
    draw_dashed_vline(img, x1, y0, y1, inner);
    proof {
        assert forall|i: int, j: int| 0 <= i < old(img).w() && 0 <= j < old(img).h() implies #[trigger] img@[j][i] == (if on_overlay_inner(i, j, x0 as int, y0 as int, x1 as int, y1 as int) {
            n
        } else if on_overlay_outer(i, j, x0 as int, y0 as int, x1 as int, y1 as int) {
            o
        } else {
            p0[j][i]
        }) by {
            assert(p1[j][i] == (if on_outline(i, j, x0 as int - 1, y0 as int - 1, x1 as int - 1, y1 as int - 1) { o } else { p0[j][i] }));
            assert(p2[j][i] == (if on_outline(i, j, x0 as int - 1, y0 as int, x1 as int - 1, y1 as int) { o } else { p1[j][i] }));
            assert(p3[j][i] == (if on_outline(i, j, x0 as int - 1, y0 as int + 1, x1 as int - 1, y1 as int + 1) { o } else { p2[j][i] }));
            assert(p4[j][i] == (if on_outline(i, j, x0 as int, y0 as int - 1, x1 as int, y1 as int - 1) { o } else { p3[j][i] }));
            assert(p5[j][i] == (if on_outline(i, j, x0 as int, y0 as int + 1, x1 as int, y1 as int + 1) { o } else { p4[j][i] }));
            assert(p6[j][i] == (if on_outline(i, j, x0 as int + 1, y0 as int - 1, x1 as int + 1, y1 as int - 1) { o } else { p5[j][i] }));
            assert(p7[j][i] == (if on_outline(i, j, x0 as int + 1, y0 as int, x1 as int + 1, y1 as int) { o } else { p6[j][i] }));
            assert(p8[j][i] == (if on_outline(i, j, x0 as int + 1, y0 as int + 1, x1 as int + 1, y1 as int + 1) { o } else { p7[j][i] }));
            assert(q1[j][i] == (if on_dashed_h(i, j, x0 as int, y0 as int, x1 as int) { n } else { p8[j][i] }));
            assert(q2[j][i] == (if on_dashed_h(i, j, x0 as int, y1 as int, x1 as int) { n } else { q1[j][i] }));
            assert(q3[j][i] == (if on_dashed_v(i, j, x0 as int, y0 as int, y1 as int) { n } else { q2[j][i] }));
            assert(img@[j][i] == (if on_dashed_v(i, j, x1 as int, y0 as int, y1 as int) { n } else { q3[j][i] }));
        }
    }
}

/// A guide line: a three-pixel-wide vertical line of `outer` at opacity
/// `alpha` with an `inner` dashed line along its middle.
fn overlay_vline(img: &mut Image, x: i32, y0: i32, y1: i32, outer: Rgb, inner: Rgb, alpha: u8)
    requires
        old(img).wf(),
        fits32(x - 1),
        fits32(x + 1),
        y0 <= y1 ==> y1 <= i32::MAX - 10,
    ensures
        final(img).wf(),
        final(img).w() == old(img).w(),
        final(img).h() == old(img).h(),
        forall|i: int, j: int|
            0 <= i < old(img).w() && 0 <= j < old(img).h() ==> #[trigger] final(img)@[j][i] == (if on_dashed_v(
                i,
                j,
                x as int,
                y0 as int,
                y1 as int,
            ) {
                Pixel(inner.0, inner.1, inner.2, 255)
            } else if x - 1 <= i <= x + 1 && y0 <= j <= y1 {
                Pixel(outer.0, outer.1, outer.2, alpha)
            } else {
                old(img)@[j][i]
            }),
{
    let ghost o = Pixel(outer.0, outer.1, outer.2, alpha);
    let ghost n = Pixel(inner.0, inner.1, inner.2, 255);
    let ghost p0 = img@;
    draw_vline(img, x - 1, y0, y1, outer, alpha);
    let ghost p1 = img@;
    draw_vline(img, x, y0, y1, outer, alpha);
    let ghost p2 = img@;
    draw_vline(img, x + 1, y0, y1, outer, alpha);
    let ghost p3 = img@;
    draw_dashed_vline(img, x, y0, y1, inner);
    proof {
        assert forall|i: int, j: int| 0 <= i < old(img).w() && 0 <= j < old(img).h() implies #[trigger] img@[j][i] == (if on_dashed_v(i, j, x as int, y0 as int, y1 as int) {
            n
        } else if x - 1 <= i <= x + 1 && y0 <= j <= y1 {
            o
        } else {
            p0[j][i]
        }) by {
            assert(p1[j][i] == (if i == x - 1 && y0 <= j <= y1 { o } else { p0[j][i] }));
            assert(p2[j][i] == (if i == x && y0 <= j <= y1 { o } else { p1[j][i] }));
            assert(p3[j][i] == (if i == x + 1 && y0 <= j <= y1 { o } else { p2[j][i] }));
            assert(img@[j][i] == (if on_dashed_v(i, j, x as int, y0 as int, y1 as int) { n } else { p3[j][i] }));
        }
    }
}

/// A solid guide line (see `overlay_vline`), opaque.
pub fn draw_overlay_vline(img: &mut Image, x: i32, y0: i32, y1: i32, outer: Rgb, inner: Rgb)
    requires
        old(img).wf(),
        fits32(x - 1),
        fits32(x + 1),
        y0 <= y1 ==> y1 <= i32::MAX - 10,
    ensures
        final(img).wf(),
        final(img).w() == old(img).w(),
        final(img).h() == old(img).h(),
        forall|i: int, j: int|
            0 <= i < old(img).w() && 0 <= j < old(img).h() ==> #[trigger] final(img)@[j][i] == (if on_dashed_v(
                i,
                j,
                x as int,
                y0 as int,
                y1 as int,
            ) {
                Pixel(inner.0, inner.1, inner.2, 255)
            } else if x - 1 <= i <= x + 1 && y0 <= j <= y1 {
                Pixel(outer.0, outer.1, outer.2, 255)
            } else {
                old(img)@[j][i]
            }),
{
    overlay_vline(img, x, y0, y1, outer, inner, 255);
}

/// A faint guide line (see `overlay_vline`), the outer line at opacity 200.
pub fn draw_vline_dashed(img: &mut Image, x: i32, y0: i32, y1: i32, outer: Rgb, inner: Rgb)
    requires
        old(img).wf(),
        fits32(x - 1),
        fits32(x + 1),
        y0 <= y1 ==> y1 <= i32::MAX - 10,
    ensures
        final(img).wf(),
        final(img).w() == old(img).w(),
        final(img).h() == old(img).h(),
        forall|i: int, j: int|
            0 <= i < old(img).w() && 0 <= j < old(img).h() ==> #[trigger] final(img)@[j][i] == (if on_dashed_v(
                i,
                j,
                x as int,
                y0 as int,
                y1 as int,
            ) {
                Pixel(inner.0, inner.1, inner.2, 255)
            } else if x - 1 <= i <= x + 1 && y0 <= j <= y1 {
                Pixel(outer.0, outer.1, outer.2, 200)
            } else {
                old(img)@[j][i]
            }),
{
    overlay_vline(img, x, y0, y1, outer, inner, 200);
}

/// `p` with its colour replaced by `color`, its alpha kept.
pub open spec fn recoloured(p: Pixel, color: Rgb) -> Pixel {
    Pixel(color.0, color.1, color.2, p.3)
}

/// The image with every pixel recoloured to `color`, keeping the alpha
/// shape; with `no_color` an unchanged copy.
pub fn apply_color_overlay(src: &Image, color: Rgb, no_color: bool) -> (dst: Image)
    requires
        src.wf(),
    ensures
        dst.wf(),
        dst.w() == src.w(),
        dst.h() == src.h(),
        forall|x: int, y: int|
            0 <= x < src.w() && 0 <= y < src.h() ==> #[trigger] dst.at(x, y) == (if no_color {
                src.at(x, y)
            } else {
                recoloured(src.at(x, y), color)
            }),
{
    let w = src.width();
    let h = src.height();
    let mut rows: Vec<Vec<Pixel>> = Vec::new();
    let mut y: u32 = 0;
    while y < h
        invariant
            src.wf(),
            w == src.w(),
            h == src.h(),
            y <= h,
            rows@.len() == y,
            forall|j: int| 0 <= j < y ==> (#[trigger] rows@[j])@.len() == w,
            forall|j: int, i: int|
                0 <= j < y && 0 <= i < w ==> rows@[j]@[i] == (if no_color {
                    src.at(i, j)
                } else {
                    recoloured(src.at(i, j), color)
                }),
        decreases h - y,
    {
        let mut row: Vec<Pixel> = Vec::new();
        let mut x: u32 = 0;
        while x < w
            invariant
                src.wf(),
                w == src.w(),
                h == src.h(),
                y < h,
                x <= w,
                row@.len() == x,
                forall|i: int|
                    0 <= i < x ==> row@[i] == (if no_color {
                        src.at(i, y as int)
                    } else {
                        recoloured(src.at(i, y as int), color)
                    }),
            decreases w - x,
        {
            let p = src.get_pixel(x, y);
            let q = if no_color { p } else { Pixel(color.0, color.1, color.2, p.3) };
            row.push(q);
            x = x + 1;
        }
        rows.push(row);
        y = y + 1;
    }
    let dst = Image { width: w, height: h, rows };
    proof {
        assert forall|j: int| 0 <= j < h implies (#[trigger] dst@[j]).len() == w by {
            assert(dst@[j] == dst.rows@[j]@);
        }
        assert forall|x: int, y: int| 0 <= x < w && 0 <= y < h implies #[trigger] dst.at(x, y) == (if no_color {
            src.at(x, y)
        } else {
            recoloured(src.at(x, y), color)
        }) by {
            assert(dst@[y] == dst.rows@[y]@);
        }
    }
    dst
}

/// A `w` × `h` grid mirrored left to right.
pub open spec fn mirrored(p: Seq<Seq<Pixel>>, w: int, h: int) -> Seq<Seq<Pixel>> {
    Seq::new(h as nat, |y: int| Seq::new(w as nat, |x: int| p[y][w - 1 - x]))
}

/// The image mirrored left to right.
pub fn flip_horizontal(img: &Image) -> (out: Image)
    requires
        img.wf(),
    ensures
        out.wf(),
        out.w() == img.w(),
        out.h() == img.h(),
        out@ == mirrored(img@, img.w(), img.h()),
        forall|x: int, y: int|
            0 <= x < img.w() && 0 <= y < img.h() ==> #[trigger] out.at(x, y) == img.at(img.w() - 1 - x, y),
{
    let w = img.width();
    let h = img.height();
    let mut rows: Vec<Vec<Pixel>> = Vec::new();
    let mut y: u32 = 0;
    while y < h
        invariant
            img.wf(),
            w == img.w(),
            h == img.h(),
            y <= h,
            rows@.len() == y,
            forall|j: int| 0 <= j < y ==> (#[trigger] rows@[j])@.len() == w,
            forall|j: int, i: int| 0 <= j < y && 0 <= i < w ==> rows@[j]@[i] == img.at(w - 1 - i, j),
        decreases h - y,
    {
        let mut row: Vec<Pixel> = Vec::new();
        let mut x: u32 = 0;
        while x < w
            invariant
                img.wf(),
                w == img.w(),
                h == img.h(),
                y < h,
                x <= w,
                row@.len() == x,
                forall|i: int| 0 <= i < x ==> row@[i] == img.at(w - 1 - i, y as int),
            decreases w - x,
        {
            row.push(img.get_pixel(w - 1 - x, y));
            x = x + 1;
        }
        rows.push(row);
        y = y + 1;
    }
    let out = Image { width: w, height: h, rows };
    proof {
        assert forall|j: int| 0 <= j < h implies (#[trigger] out@[j]).len() == w by {
            assert(out@[j] == out.rows@[j]@);
        }
        assert forall|x: int, y: int| 0 <= x < w && 0 <= y < h implies #[trigger] out.at(x, y) == img.at(w - 1 - x, y) by {
            assert(out@[y] == out.rows@[y]@);
        }
        let m = mirrored(img@, w as int, h as int);
        assert forall|y: int| 0 <= y < h implies #[trigger] out@[y] =~= m[y] by {
            assert(out@[y] == out.rows@[y]@);
        }
        assert(out@ =~= m);
    }
    out
}

/// Mirroring twice gives the image back.
pub proof fn law_flip_twice(p: Seq<Seq<Pixel>>, w: int, h: int)
    requires
        w >= 0,
        h >= 0,
        is_grid(p, w, h),
    ensures
        mirrored(mirrored(p, w, h), w, h) == p,
{
    let m2 = mirrored(mirrored(p, w, h), w, h);
    assert forall|y: int| 0 <= y < h implies #[trigger] m2[y] =~= p[y] by {}
    assert(m2 =~= p);
}

/// The colour key of the `tRNS` data of an RGB image: the low bytes of its
/// three 16-bit big-endian samples where it holds six bytes or more; its
/// three bytes where it holds three (the samples of an 8-bit image, as
/// `png` hands them out); none otherwise.
pub open spec fn trns_key_of(trns: Seq<u8>) -> Option<(u8, u8, u8)> {
    if trns.len() >= 6 {
        Some((trns[1], trns[3], trns[5]))
    } else if trns.len() == 3 {
        Some((trns[0], trns[1], trns[2]))
    } else {
        None
    }
}

/// The colour key of a `tRNS` chunk (see `trns_key_of`).
pub fn trns_key(trns: &[u8]) -> (r: Option<(u8, u8, u8)>)
    ensures
        r == trns_key_of(trns@),
{
    if trns.len() >= 6 {
        let (t0, t1, t2, t3, t4, t5) = (trns[0], trns[1], trns[2], trns[3], trns[4], trns[5]);
        let r = ((((t0 as u16) << 8u16) | t1 as u16) & 0xFF) as u8;
        let g = ((((t2 as u16) << 8u16) | t3 as u16) & 0xFF) as u8;
        let b = ((((t4 as u16) << 8u16) | t5 as u16) & 0xFF) as u8;
        assert(r == t1) by (bit_vector)
            requires
                r == ((((t0 as u16) << 8u16) | t1 as u16) & 0xFF) as u8,
        ;
        assert(g == t3) by (bit_vector)
            requires
                g == ((((t2 as u16) << 8u16) | t3 as u16) & 0xFF) as u8,
        ;
        assert(b == t5) by (bit_vector)
            requires
                b == ((((t4 as u16) << 8u16) | t5 as u16) & 0xFF) as u8,
        ;
        Some((r, g, b))
    } else if trns.len() == 3 {
        Some((trns[0], trns[1], trns[2]))
    } else {
        None
    }
}

/// Colour-key transparency for an image without alpha: the key is the
/// `tRNS` colour where there is one, else the top-left pixel's colour.
/// Pixels of the key colour become fully transparent, all others opaque.
pub open spec fn keyed(p: Pixel, key: (u8, u8, u8)) -> Pixel {
    Pixel(p.0, p.1, p.2, if p.0 == key.0 && p.1 == key.1 && p.2 == key.2 { 0 } else { 255 })
}

/// The key `apply_rgb_transparency` uses.
pub open spec fn transparency_key(trns: Option<(u8, u8, u8)>, rgb: &Image) -> (u8, u8, u8) {
    match trns {
        Some(k) => k,
        None => (rgb.at(0, 0).0, rgb.at(0, 0).1, rgb.at(0, 0).2),
    }
}

/// An RGB image (the alpha of `rgb` is not read) made transparent where
/// it has the key colour (see `keyed`). Without a `tRNS` key the image must
/// have a top-left pixel.
pub fn apply_rgb_transparency(trns: Option<(u8, u8, u8)>, rgb: &Image) -> (out: Image)
    requires
        rgb.wf(),
        trns is None ==> rgb.w() > 0 && rgb.h() > 0,
    ensures
        out.wf(),
        out.w() == rgb.w(),
        out.h() == rgb.h(),
        forall|x: int, y: int|
            0 <= x < rgb.w() && 0 <= y < rgb.h() ==> #[trigger] out.at(x, y) == keyed(
                rgb.at(x, y),
                transparency_key(trns, rgb),
            ),
{
    let key = match trns {
        Some(k) => k,
        None => {
            let p = rgb.get_pixel(0, 0);
            (p.0, p.1, p.2)
        },
    };
    let w = rgb.width();
    let h = rgb.height();
    let mut rows: Vec<Vec<Pixel>> = Vec::new();
    let mut y: u32 = 0;
    while y < h
        invariant
            rgb.wf(),
            w == rgb.w(),
            h == rgb.h(),
            y <= h,
            rows@.len() == y,
            forall|j: int| 0 <= j < y ==> (#[trigger] rows@[j])@.len() == w,
            forall|j: int, i: int| 0 <= j < y && 0 <= i < w ==> rows@[j]@[i] == keyed(rgb.at(i, j), key),
        decreases h - y,
    {
        let mut row: Vec<Pixel> = Vec::new();
        let mut x: u32 = 0;
        while x < w
            invariant
                rgb.wf(),
                w == rgb.w(),
                h == rgb.h(),
                y < h,
                x <= w,
                row@.len() == x,
                forall|i: int| 0 <= i < x ==> row@[i] == keyed(rgb.at(i, y as int), key),
            decreases w - x,
        {
            let p = rgb.get_pixel(x, y);
            let a: u8 = if p.0 == key.0 && p.1 == key.1 && p.2 == key.2 { 0 } else { 255 };
            row.push(Pixel(p.0, p.1, p.2, a));
            x = x + 1;
        }
        rows.push(row);
        y = y + 1;
    }
    let out = Image { width: w, height: h, rows };
    proof {
        assert forall|j: int| 0 <= j < h implies (#[trigger] out@[j]).len() == w by {
            assert(out@[j] == out.rows@[j]@);
        }
        assert forall|x: int, y: int| 0 <= x < w && 0 <= y < h implies #[trigger] out.at(x, y) == keyed(rgb.at(x, y), key) by {
            assert(out@[y] == out.rows@[y]@);
        }
    }
    out
}

/// An RGB image and a separate alpha plane (as a `.pna` file gives it,
/// `alpha[y][x]`) joined into one RGBA image; none where their sizes differ.
pub fn merge_alpha(rgb: &Image, alpha: &Vec<Vec<u8>>) -> (r: Option<Image>)
    requires
        rgb.wf(),
    ensures
        match r {
            Some(out) => {
                &&& alpha@.len() == rgb.h()
                &&& forall|y: int| 0 <= y < rgb.h() ==> (#[trigger] alpha@[y])@.len() == rgb.w()
                &&& out.wf() && out.w() == rgb.w() && out.h() == rgb.h()
                &&& forall|x: int, y: int|
                    0 <= x < rgb.w() && 0 <= y < rgb.h() ==> #[trigger] out.at(x, y) == Pixel(
                        rgb.at(x, y).0,
                        rgb.at(x, y).1,
                        rgb.at(x, y).2,
                        alpha@[y]@[x],
                    )
            },
            None => !(alpha@.len() == rgb.h() && forall|y: int|
                0 <= y < rgb.h() ==> (#[trigger] alpha@[y])@.len() == rgb.w()),
        },
{
    let w = rgb.width();
    let h = rgb.height();
    if alpha.len() != h as usize {
        return None;
    }
    let mut k: usize = 0;
    while k < alpha.len()
        invariant
            k <= alpha@.len() == h,
            w == rgb.w(),
            h == rgb.h(),
            forall|y: int| 0 <= y < k ==> (#[trigger] alpha@[y])@.len() == w,
        decreases alpha@.len() - k,
    {
        if alpha[k].len() != w as usize {
            assert(alpha@[k as int]@.len() != w);
            return None;
        }
        k = k + 1;
    }
    let mut rows: Vec<Vec<Pixel>> = Vec::new();
    let mut y: u32 = 0;
    while y < h
        invariant
            rgb.wf(),
            w == rgb.w(),
            h == rgb.h(),
            alpha@.len() == h,
            forall|j: int| 0 <= j < h ==> (#[trigger] alpha@[j])@.len() == w,
            y <= h,
            rows@.len() == y,
            forall|j: int| 0 <= j < y ==> (#[trigger] rows@[j])@.len() == w,
            forall|j: int, i: int|
                0 <= j < y && 0 <= i < w ==> rows@[j]@[i] == Pixel(
                    rgb.at(i, j).0,
                    rgb.at(i, j).1,
                    rgb.at(i, j).2,
                    alpha@[j]@[i],
                ),
        decreases h - y,
    {
        let mut row: Vec<Pixel> = Vec::new();
        let mut x: u32 = 0;
        while x < w
            invariant
                rgb.wf(),
                w == rgb.w(),
                h == rgb.h(),
                alpha@.len() == h,
                forall|j: int| 0 <= j < h ==> (#[trigger] alpha@[j])@.len() == w,
                y < h,
                x <= w,
                row@.len() == x,
                forall|i: int|
                    0 <= i < x ==> row@[i] == Pixel(
                        rgb.at(i, y as int).0,
                        rgb.at(i, y as int).1,
                        rgb.at(i, y as int).2,
                        alpha@[y as int]@[i],
                    ),
            decreases w - x,
        {
            let p = rgb.get_pixel(x, y);
            let a = alpha[y as usize][x as usize];
            row.push(Pixel(p.0, p.1, p.2, a));
            x = x + 1;
        }
        rows.push(row);
        y = y + 1;
    }
    let out = Image { width: w, height: h, rows };
    proof {
        assert forall|j: int| 0 <= j < h implies (#[trigger] out@[j]).len() == w by {
            assert(out@[j] == out.rows@[j]@);
        }
        assert forall|x: int, y: int| 0 <= x < w && 0 <= y < h implies #[trigger] out.at(x, y) == Pixel(
            rgb.at(x, y).0,
            rgb.at(x, y).1,
            rgb.at(x, y).2,
            alpha@[y]@[x],
        ) by {
            assert(out@[y] == out.rows@[y]@);
        }
    }
    Some(out)
}

/// The opaque pixels (alpha above 128) of row `y` between columns `x0` and `x1`.
pub open spec fn row_samples(img: &Image, x0: int, x1: int, y: int) -> Seq<Pixel>
    decreases x1 - x0,
{
    if x1 <= x0 {
        Seq::empty()
    } else {
        let r = row_samples(img, x0, x1 - 1, y);
        let p = img.at(x1 - 1, y);
        if p.3 > 128 {
            r.push(p)
        } else {
            r
        }
    }
}

/// The opaque pixels of the window `x0..x1` × `y0..y1`, row by row.
pub open spec fn window_samples(img: &Image, x0: int, x1: int, y0: int, y1: int) -> Seq<Pixel>
    decreases y1 - y0,
{
    if y1 <= y0 {
        Seq::empty()
    } else {
        window_samples(img, x0, x1, y0, y1 - 1) + row_samples(img, x0, x1, y1 - 1)
    }
}

/// The sum of one channel (0 red, 1 green, 2 blue) over pixels.
pub open spec fn channel_sum(s: Seq<Pixel>, c: int) -> int
    decreases s.len(),
{
    if s.len() == 0 {
        0
    } else {
        channel_sum(s.drop_last(), c) + (if c == 0 {
            s.last().0
        } else if c == 1 {
            s.last().1
        } else {
            s.last().2
        }) as int
    }
}

/// The mean colour of the samples, each channel rounded down; mid grey
/// where there are none.
pub open spec fn mean_color(s: Seq<Pixel>) -> Rgb {
    if s.len() == 0 {
        Rgb(128, 128, 128)
    } else {
        Rgb(
            (channel_sum(s, 0) / s.len() as int) as u8,
            (channel_sum(s, 1) / s.len() as int) as u8,
            (channel_sum(s, 2) / s.len() as int) as u8,
        )
    }
}

/// The sampling window around the centre: `margin` on each side of the
/// middle, clipped to the image: `(x0, x1, y0, y1)`.
pub open spec fn center_window(w: int, h: int, mx: int, my: int) -> (int, int, int, int) {
    (
        w / 2 - (if mx < w / 2 { mx } else { w / 2 }),
        if w / 2 + mx < w { w / 2 + mx } else { w },
        h / 2 - (if my < h / 2 { my } else { h / 2 }),
        if h / 2 + my < h { h / 2 + my } else { h },
    )
}

proof fn lemma_channel_sum_bound(s: Seq<Pixel>, c: int)
    ensures
        0 <= channel_sum(s, c) <= 255 * s.len(),
    decreases s.len(),
{
    if s.len() > 0 {
        lemma_channel_sum_bound(s.drop_last(), c);
    }
}

proof fn lemma_channel_sum_push(s: Seq<Pixel>, p: Pixel, c: int)
    ensures
        channel_sum(s.push(p), c) == channel_sum(s, c) + (if c == 0 {
            p.0
        } else if c == 1 {
            p.1
        } else {
            p.2
        }) as int,
{
    assert(s.push(p).drop_last() =~= s);
}

proof fn lemma_mean_fits(sum: int, n: int)
    requires
        0 <= sum <= 255 * n,
        n > 0,
    ensures
        0 <= sum / n <= 255,
{
    assert(sum / n <= 255) by (nonlinear_arith)
        requires
            0 <= sum <= 255 * n,
            n > 0,
    ;
    assert(0 <= sum / n) by (nonlinear_arith)
        requires
            0 <= sum,
            n > 0,
    ;
}

proof fn lemma_row_samples_len(img: &Image, x0: int, x1: int, y: int)
    ensures
        row_samples(img, x0, x1, y).len() <= (if x1 > x0 { x1 - x0 } else { 0 }),
    decreases x1 - x0,
{
    if x1 > x0 {
        lemma_row_samples_len(img, x0, x1 - 1, y);
    }
}

/// The mean colour of the opaque pixels in a window around the centre of
/// the image, `margin_x` / `margin_y` pixels to each side (the window the
/// preview samples to judge text contrast); grey where none is opaque.
pub fn center_average(img: &Image, margin_x: u32, margin_y: u32) -> (c: Rgb)
    requires
        img.wf(),
        img.w() / 2 + margin_x <= u32::MAX,
        img.h() / 2 + margin_y <= u32::MAX,
        img.w() * img.h() <= 0x100_0000_0000_0000,
    ensures
        ({
            let (x0, x1, y0, y1) = center_window(img.w(), img.h(), margin_x as int, margin_y as int);
            c == mean_color(window_samples(img, x0, x1, y0, y1))
        }),
{
    let w = img.width();
    let h = img.height();
    let x0 = w / 2 - (if margin_x < w / 2 { margin_x } else { w / 2 });
    let y0 = h / 2 - (if margin_y < h / 2 { margin_y } else { h / 2 });
    let x1 = if w / 2 + margin_x < w { w / 2 + margin_x } else { w };
    let y1 = if h / 2 + margin_y < h { h / 2 + margin_y } else { h };
    let mut sum_r: u64 = 0;
    let mut sum_g: u64 = 0;
    let mut sum_b: u64 = 0;
    let mut count: u64 = 0;
    let mut y = y0;
    let ghost mut done: Seq<Pixel> = Seq::empty();
    assert(x0 <= x1 && y0 <= y1);
    while y < y1
        invariant
            img.wf(),
            w == img.w(),
            h == img.h(),
            img.w() * img.h() <= 0x100_0000_0000_0000,
            x0 <= x1 <= w,
            y0 <= y <= y1 <= h,
            done == window_samples(img, x0 as int, x1 as int, y0 as int, y as int),
            done.len() <= (y - y0) * (x1 - x0),
            count == done.len(),
            sum_r == channel_sum(done, 0),
            sum_g == channel_sum(done, 1),
            sum_b == channel_sum(done, 2),
        decreases y1 - y,
    {
        let ghost row_start = done;
        let mut x = x0;
        while x < x1
            invariant
                img.wf(),
                w == img.w(),
                h == img.h(),
                img.w() * img.h() <= 0x100_0000_0000_0000,
                x0 <= x <= x1 <= w,
                y0 <= y < y1 <= h,
                row_start.len() <= (y - y0) * (x1 - x0),
                done == row_start + row_samples(img, x0 as int, x as int, y as int),
                count == done.len(),
                sum_r == channel_sum(done, 0),
                sum_g == channel_sum(done, 1),
                sum_b == channel_sum(done, 2),
            decreases x1 - x,
        {
            proof {
                lemma_row_samples_len(img, x0 as int, x as int, y as int);
                lemma_channel_sum_bound(done, 0);
                lemma_channel_sum_bound(done, 1);
                lemma_channel_sum_bound(done, 2);
                assert((y - y0) * (x1 - x0) + (x - x0) <= w * h) by (nonlinear_arith)
                    requires
                        y0 <= y < y1 <= h,
                        x0 <= x < x1 <= w,
                ;
            }
            let p = img.get_pixel(x, y);
            if p.3 > 128 {
                sum_r = sum_r + p.0 as u64;
                sum_g = sum_g + p.1 as u64;
                sum_b = sum_b + p.2 as u64;
                count = count + 1;
                proof {
                    lemma_channel_sum_push(done, p, 0);
                    lemma_channel_sum_push(done, p, 1);
                    lemma_channel_sum_push(done, p, 2);
                    assert(row_start + row_samples(img, x0 as int, x + 1, y as int) =~= (row_start
                        + row_samples(img, x0 as int, x as int, y as int)).push(p));
                    done = done.push(p);
                }
            }
            x = x + 1;
        }
        proof {
            lemma_row_samples_len(img, x0 as int, x1 as int, y as int);
            assert((y - y0) * (x1 - x0) + (x1 - x0) == (y + 1 - y0) * (x1 - x0)) by (nonlinear_arith);
        }
        y = y + 1;
    }
    if count == 0 {
        return Rgb(128, 128, 128);
    }
    proof {
        lemma_channel_sum_bound(done, 0);
        lemma_channel_sum_bound(done, 1);
        lemma_channel_sum_bound(done, 2);
        lemma_mean_fits(sum_r as int, count as int);
        lemma_mean_fits(sum_g as int, count as int);
        lemma_mean_fits(sum_b as int, count as int);
    }
    Rgb((sum_r / count) as u8, (sum_g / count) as u8, (sum_b / count) as u8)
}

/// The opacity a pixel of a black-on-white text bitmap (`0x00RRGGBB`)
/// gives: 255 less its luminance (`(299 R + 587 G + 114 B) / 1000`).
pub open spec fn ink_alpha(p: u32) -> u8 {
    let b = p % 256;
    let g = (p / 256) % 256;
    let r = (p / 65536) % 256;
    let lum = (r * 299 + g * 587 + b * 114) / 1000;
    (255 - (if lum < 255 {
        lum
    } else {
        255
    })) as u8
}

/// The bitmap pixel that lands on image pixel `(i, j)` when the bitmap's
/// top-left corner is at `(px, py)`, if any.
pub open spec fn ink_at(raw: Seq<u32>, stride: int, draw_w: int, bmp_h: int, px: int, py: int, i: int, j: int) -> Option<u32> {
    let rx = i - px;
    let ry = j - py;
    if 0 <= rx < draw_w && 0 <= ry < bmp_h {
        Some(raw[ry * stride + rx])
    } else {
        None
    }
}

/// The opacity of one bitmap pixel (see `ink_alpha`).
fn ink_alpha_exec(p: u32) -> (a: u8)
    ensures
        a == ink_alpha(p),
{
    let b = p & 0xFF;
    let g = (p >> 8u32) & 0xFF;
    let r = (p >> 16u32) & 0xFF;
    assert(b == p % 256) by (bit_vector)
        requires
            b == p & 0xFF,
    ;
    assert(g == (p / 256) % 256) by (bit_vector)
        requires
            g == (p >> 8u32) & 0xFF,
    ;
    assert(r == (p / 65536) % 256) by (bit_vector)
        requires
            r == (p >> 16u32) & 0xFF,
    ;
    let lum = (r * 299 + g * 587 + b * 114) / 1000;
    let capped = if lum < 255 {
        lum
    } else {
        255
    };
    (255 - capped) as u8
}

/// Blends a text bitmap `raw` (rows `stride` pixels apart, `draw_w` ×
/// `bmp_h` of them used) onto the image with its top-left corner at
/// `(px, py)`, in `color`, each pixel at the opacity its darkness gives
/// (see `ink_alpha`); fully light pixels and pixels falling outside the
/// image are skipped.
pub fn paste_alpha_raw(
    img: &mut Image,
    raw: &[u32],
    stride: i32,
    draw_w: i32,
    bmp_h: i32,
    px: i32,
    py: i32,
    color: Rgb,
)
    requires
        old(img).wf(),
        0 <= stride,
        draw_w > 0 && bmp_h > 0 ==> {
            &&& (bmp_h - 1) * stride + draw_w <= raw@.len()
            &&& (bmp_h - 1) * stride + draw_w <= i32::MAX
            &&& fits32(px + draw_w - 1)
            &&& fits32(py + bmp_h - 1)
        },
    ensures
        final(img).wf(),
        final(img).w() == old(img).w(),
        final(img).h() == old(img).h(),
        forall|i: int, j: int|
            0 <= i < old(img).w() && 0 <= j < old(img).h() ==> #[trigger] final(img)@[j][i] == (match ink_at(
                raw@,
                stride as int,
                draw_w as int,
                bmp_h as int,
                px as int,
                py as int,
                i,
                j,
            ) {
                Some(p) if ink_alpha(p) != 0 => blended(old(img)@[j][i], color, ink_alpha(p)),
                _ => old(img)@[j][i],
            }),
{
    let ghost p0 = img@;
    let ghost rs = raw@;
    if draw_w <= 0 || bmp_h <= 0 {
        return;
    }
    let mut ry: i32 = 0;
    while ry < bmp_h
        invariant
            0 <= ry <= bmp_h,
            0 < draw_w,
            img.wf(),
            img.w() == old(img).w(),
            img.h() == old(img).h(),
            p0 == old(img)@,
            rs == raw@,
            0 <= stride,
            (bmp_h - 1) * stride + draw_w <= rs.len(),
            (bmp_h - 1) * stride + draw_w <= i32::MAX,
            fits32(px + draw_w - 1),
            fits32(py + bmp_h - 1),
            forall|i: int, j: int|
                0 <= i < img.w() && 0 <= j < img.h() ==> #[trigger] img@[j][i] == (match ink_at(
                    rs,
                    stride as int,
                    draw_w as int,
                    ry as int,
                    px as int,
                    py as int,
                    i,
                    j,
                ) {
                    Some(p) if ink_alpha(p) != 0 => blended(p0[j][i], color, ink_alpha(p)),
                    _ => p0[j][i],
                }),
        decreases bmp_h - ry,
    {
        let mut rx: i32 = 0;
        let ghost row0 = img@;
        while rx < draw_w
            invariant
                0 <= ry < bmp_h,
                0 <= rx,
                rx <= draw_w,
                img.wf(),
                img.w() == old(img).w(),
                img.h() == old(img).h(),
                p0 == old(img)@,
                rs == raw@,
                0 <= stride,
                (bmp_h - 1) * stride + draw_w <= rs.len(),
                (bmp_h - 1) * stride + draw_w <= i32::MAX,
                fits32(px + draw_w - 1),
                fits32(py + bmp_h - 1),
                forall|i: int, j: int|
                    0 <= i < img.w() && 0 <= j < img.h() ==> #[trigger] img@[j][i] == (match ink_at(
                        rs,
                        stride as int,
                        draw_w as int,
                        ry as int,
                        px as int,
                        py as int,
                        i,
                        j,
                    ) {
                        Some(p) if ink_alpha(p) != 0 => blended(p0[j][i], color, ink_alpha(p)),
                        _ => if j == py + ry && px <= i < px + rx {
                            match ink_at(rs, stride as int, draw_w as int, ry + 1, px as int, py as int, i, j) {
                                Some(p) if ink_alpha(p) != 0 => blended(p0[j][i], color, ink_alpha(p)),
                                _ => p0[j][i],
                            }
                        } else {
                            p0[j][i]
                        },
                    }),
            decreases draw_w - rx,
        {
            assert(ry * stride <= (bmp_h - 1) * stride) by (nonlinear_arith)
                requires
                    0 <= ry < bmp_h,
                    0 <= stride,
            ;
            assert(0 <= ry * stride) by (nonlinear_arith)
                requires
                    0 <= ry,
                    0 <= stride,
            ;
            let idx = (ry * stride + rx) as usize;
            let p = raw[idx];
            let a = ink_alpha_exec(p);
            if a != 0 {
                let ghost before = img@;
                blend_px(img, px + rx, py + ry, color, a);
                proof {
                    assert forall|i: int, j: int| 0 <= i < img.w() && 0 <= j < img.h() implies #[trigger] img@[j][i]
                        == (match ink_at(rs, stride as int, draw_w as int, ry as int, px as int, py as int, i, j) {
                        Some(q) if ink_alpha(q) != 0 => blended(p0[j][i], color, ink_alpha(q)),
                        _ => if j == py + ry && px <= i < px + rx + 1 {
                            match ink_at(rs, stride as int, draw_w as int, ry + 1, px as int, py as int, i, j) {
                                Some(q) if ink_alpha(q) != 0 => blended(p0[j][i], color, ink_alpha(q)),
                                _ => p0[j][i],
                            }
                        } else {
                            p0[j][i]
                        },
                    }) by {
                        if i == px + rx && j == py + ry {
                            assert(ink_at(rs, stride as int, draw_w as int, ry + 1, px as int, py as int, i, j) == Some(p));
                            assert(ink_at(rs, stride as int, draw_w as int, ry as int, px as int, py as int, i, j) is None);
                            assert(before[j][i] == p0[j][i]);
                        }
                    }
                }
            } else {
                proof {
                    assert forall|i: int, j: int| 0 <= i < img.w() && 0 <= j < img.h() implies #[trigger] img@[j][i]
                        == (match ink_at(rs, stride as int, draw_w as int, ry as int, px as int, py as int, i, j) {
                        Some(q) if ink_alpha(q) != 0 => blended(p0[j][i], color, ink_alpha(q)),
                        _ => if j == py + ry && px <= i < px + rx + 1 {
                            match ink_at(rs, stride as int, draw_w as int, ry + 1, px as int, py as int, i, j) {
                                Some(q) if ink_alpha(q) != 0 => blended(p0[j][i], color, ink_alpha(q)),
                                _ => p0[j][i],
                            }
                        } else {
                            p0[j][i]
                        },
                    }) by {
                        if i == px + rx && j == py + ry {
                            assert(ink_at(rs, stride as int, draw_w as int, ry + 1, px as int, py as int, i, j) == Some(p));
                        }
                    }
                }
            }
            rx = rx + 1;
        }
        proof {
            assert forall|i: int, j: int| 0 <= i < img.w() && 0 <= j < img.h() implies #[trigger] img@[j][i] == (match ink_at(
                rs,
                stride as int,
                draw_w as int,
                ry + 1,
                px as int,
                py as int,
                i,
                j,
            ) {
                Some(q) if ink_alpha(q) != 0 => blended(p0[j][i], color, ink_alpha(q)),
                _ => p0[j][i],
            }) by {
                if j == py + ry && px <= i < px + draw_w {
                    assert(ink_at(rs, stride as int, draw_w as int, ry as int, px as int, py as int, i, j) is None);
                }
            }
        }
        ry = ry + 1;
    }
}

} // verus!
