//! The guide overlay of the preview: the text area (or the input box of a
//! `balloonc` balloon) outlined with cross marks at its corners, the
//! word-wrap line, and the text origin.
use vstd::prelude::*;
use vstd::hash_map::StringHashMap;
use crate::color::Rgb;
use crate::descript::{pos_str, pos_value, strs};
use crate::fonts::{text_or, ValidRect};
use crate::num::{parse_i32, parse_in_range};
use crate::raster::{
    draw_cross, draw_overlay_rect, draw_overlay_vline, draw_vline_dashed, fits32, on_cross_inner, on_cross_outer,
    on_dashed_v, on_overlay_inner, on_overlay_outer, Image, Pixel,
};

verus! {

/// An opaque pixel of colour `c`.
pub open spec fn solid(c: Rgb) -> Pixel {
    Pixel(c.0, c.1, c.2, 255)
}

/// A pixel after a cross mark at `(cx, cy)` is drawn (see `draw_cross`).
pub open spec fn cross_px(p: Pixel, i: int, j: int, cx: int, cy: int, outer: Rgb, inner: Rgb) -> Pixel {
    if on_cross_inner(i, j, cx, cy) {
        solid(inner)
    } else if on_cross_outer(i, j, cx, cy) {
        solid(outer)
    } else {
        p
    }
}

/// A pixel after a guide rectangle is drawn (see `draw_overlay_rect`).
pub open spec fn rect_px(p: Pixel, i: int, j: int, x0: int, y0: int, x1: int, y1: int, outer: Rgb, inner: Rgb) -> Pixel {
    if on_overlay_inner(i, j, x0, y0, x1, y1) {
        solid(inner)
    } else if on_overlay_outer(i, j, x0, y0, x1, y1) {
        solid(outer)
    } else {
        p
    }
}

/// A pixel after a vertical guide line is drawn, the outer line at opacity `a`.
pub open spec fn guide_px(p: Pixel, i: int, j: int, x: int, y0: int, y1: int, outer: Rgb, inner: Rgb, a: u8) -> Pixel {
    if on_dashed_v(i, j, x, y0, y1) {
        solid(inner)
    } else if x - 1 <= i <= x + 1 && y0 <= j <= y1 {
        Pixel(outer.0, outer.1, outer.2, a)
    } else {
        p
    }
}

/// A pixel after a guide rectangle with cross marks at its four corners is drawn.
pub open spec fn marked_box_px(p: Pixel, i: int, j: int, l: int, t: int, r: int, b: int) -> Pixel {
    let w = Rgb(255, 255, 255);
    let red = Rgb(255, 0, 0);
    cross_px(
        cross_px(cross_px(cross_px(rect_px(p, i, j, l, t, r, b, w, red), i, j, l, t, w, red), i, j, r, t, w, red), i, j, l, b, w, red),
        i,
        j,
        r,
        b,
        w,
        red,
    )
}

/// `key` read as an `i32`, `d` where it is missing or does not read.
pub open spec fn int_or(m: Map<Seq<char>, Seq<char>>, key: Seq<char>, d: int) -> int {
    if m.contains_key(key) {
        match parse_in_range(m[key], true, i32::MIN as int, i32::MAX as int) {
            Some(x) => x,
            None => d,
        }
    } else {
        d
    }
}

/// `v` brought into `[lo, hi]` as `v.max(lo).min(hi)` does.
pub open spec fn max_min(v: int, lo: int, hi: int) -> int {
    let a = if v > lo {
        v
    } else {
        lo
    };
    if a < hi {
        a
    } else {
        hi
    }
}

/// The input box as the overlay draws it: `(left, top, right, bottom)`,
/// the sides included, its top-left corner kept inside the image.
pub open spec fn input_box(m: Map<Seq<char>, Seq<char>>, iw: int, ih: int) -> (int, int, int, int) {
    let x = int_or(m, "communicatebox.x"@, 10);
    let y = int_or(m, "communicatebox.y"@, 10);
    let w = int_or(m, "communicatebox.width"@, 100);
    let h = int_or(m, "communicatebox.height"@, 30);
    let bl = max_min(x, 0, iw - 1);
    let bt = max_min(
        if y < 0 {
            ih + y
        } else {
            y
        },
        0,
        ih - 1,
    );
    let br = (if bl + w < iw {
        bl + w
    } else {
        iw
    }) - 1;
    let bb = (if bt + h < ih {
        bt + h
    } else {
        ih
    }) - 1;
    (bl, bt, br, bb)
}

/// The word-wrap position: `wordwrappoint.x`, by default at the right edge.
pub open spec fn wrap_x(m: Map<Seq<char>, Seq<char>>, iw: i32) -> int {
    pos_value(text_or(m, "wordwrappoint.x"@, "-0"@), iw) as int
}

/// A pixel of the overlay, drawn over `p` at `(i, j)`: for an input-box
/// balloon its box with corner marks; otherwise the text area with corner
/// marks, the word-wrap line (faint grey where it lies right of the text
/// area), and a green mark at the text origin where `origin.x/y` move it.
pub open spec fn overlay_px(
    p: Pixel,
    i: int,
    j: int,
    m: Map<Seq<char>, Seq<char>>,
    vr: ValidRect,
    is_balloonc: bool,
    iw: i32,
    ih: i32,
) -> Pixel {
    if is_balloonc {
        let (bl, bt, br, bb) = input_box(m, iw as int, ih as int);
        marked_box_px(p, i, j, bl, bt, br, bb)
    } else {
        let (l, t, r, b) = (vr.left as int, vr.top as int, vr.right - 1, vr.bottom - 1);
        let q = marked_box_px(p, i, j, l, t, r, b);
        let wx = wrap_x(m, iw);
        let q2 = if wx > vr.right {
            guide_px(q, i, j, wx, t, b, Rgb(180, 180, 180), Rgb(100, 100, 100), 200)
        } else {
            guide_px(q, i, j, wx, t, b, Rgb(255, 255, 255), Rgb(255, 0, 0), 255)
        };
        let ox = int_or(m, "origin.x"@, 0);
        let oy = int_or(m, "origin.y"@, 0);
        if ox != 0 || oy != 0 {
            cross_px(q2, i, j, vr.left + ox, vr.top + oy, Rgb(0, 200, 0), Rgb(0, 200, 0))
        } else {
            q2
        }
    }
}

/// A cross mark at `(cx, cy)` stays within `i32` arithmetic.
pub open spec fn cross_ok(cx: int, cy: int) -> bool {
    fits32(cx - 6) && fits32(cx + 7) && fits32(cy - 6) && fits32(cy + 6)
}

/// A guide rectangle with corner marks stays within `i32` arithmetic.
pub open spec fn box_ok(l: int, t: int, r: int, b: int) -> bool {
    &&& fits32(l - 1) && fits32(l + 1) && fits32(t - 1) && fits32(t + 1)
    &&& fits32(r - 1) && fits32(b - 1) && fits32(b + 1) && r + 2 <= i32::MAX
    &&& (l <= r ==> r <= i32::MAX - 10) && (t <= b ==> b <= i32::MAX - 10)
    &&& cross_ok(l, t) && cross_ok(r, t) && cross_ok(l, b) && cross_ok(r, b)
}

/// The overlay's coordinates stay within `i32` arithmetic (beyond that the
/// drawing would overflow).
pub open spec fn overlay_ok(m: Map<Seq<char>, Seq<char>>, vr: ValidRect, is_balloonc: bool, iw: i32, ih: i32) -> bool {
    if is_balloonc {
        let bl = max_min(int_or(m, "communicatebox.x"@, 10), 0, iw - 1);
        let y = int_or(m, "communicatebox.y"@, 10);
        let bt = max_min(
            if y < 0 {
                ih + y
            } else {
                y
            },
            0,
            ih - 1,
        );
        let (_, _, br, bb) = input_box(m, iw as int, ih as int);
        &&& fits32(bl + int_or(m, "communicatebox.width"@, 100))
        &&& fits32(bt + int_or(m, "communicatebox.height"@, 30))
        &&& box_ok(bl, bt, br, bb)
    } else {
        let (l, t, r, b) = (vr.left as int, vr.top as int, vr.right - 1, vr.bottom - 1);
        let wx = wrap_x(m, iw);
        let ox = int_or(m, "origin.x"@, 0);
        let oy = int_or(m, "origin.y"@, 0);
        &&& fits32(r) && fits32(b)
        &&& box_ok(l, t, r, b)
        &&& fits32(wx - 1) && fits32(wx + 1)
        &&& (ox != 0 || oy != 0) ==> fits32(vr.left + ox) && fits32(vr.top + oy) && cross_ok(vr.left + ox, vr.top + oy)
    }
}

/// `key` read as an `i32`, `d` where it is missing or does not read.
pub(crate) fn int_value(parsed: &StringHashMap<String>, key: &str, d: i32) -> (r: i32)
    ensures
        r == int_or(strs(parsed@), key@, d as int),
{
    match parsed.get(key) {
        Some(s) => match parse_i32(s.as_str()) {
            Some(x) => x,
            None => d,
        },
        None => d,
    }
}

/// `v.max(lo).min(hi)`.
fn clamp_exec(v: i32, lo: i32, hi: i32) -> (r: i32)
    ensures
        r == max_min(v as int, lo as int, hi as int),
{
    let a = if v > lo {
        v
    } else {
        lo
    };
    if a < hi {
        a
    } else {
        hi
    }
}

/// A guide rectangle with a cross mark at each corner.
fn draw_marked_box(img: &mut Image, l: i32, t: i32, r: i32, b: i32)
    requires
        old(img).wf(),
        box_ok(l as int, t as int, r as int, b as int),
    ensures
        final(img).wf(),
        final(img).w() == old(img).w(),
        final(img).h() == old(img).h(),
        forall|i: int, j: int|
            0 <= i < old(img).w() && 0 <= j < old(img).h() ==> #[trigger] final(img)@[j][i] == marked_box_px(
                old(img)@[j][i],
                i,
                j,
                l as int,
                t as int,
                r as int,
                b as int,
            ),
{
    let white = Rgb(255, 255, 255);
    let red = Rgb(255, 0, 0);
    let ghost p0 = img@;
    draw_overlay_rect(img, l, t, r, b, white, red);
    let ghost p1 = img@;
    draw_cross(img, l, t, white, red);
    let ghost p2 = img@;
    draw_cross(img, r, t, white, red);
    let ghost p3 = img@;
    draw_cross(img, l, b, white, red);
    let ghost p4 = img@;
    draw_cross(img, r, b, white, red);
    proof {
        assert forall|i: int, j: int| 0 <= i < old(img).w() && 0 <= j < old(img).h() implies #[trigger] img@[j][i]
            == marked_box_px(p0[j][i], i, j, l as int, t as int, r as int, b as int) by {
            assert(p1[j][i] == rect_px(p0[j][i], i, j, l as int, t as int, r as int, b as int, white, red));
            assert(p2[j][i] == cross_px(p1[j][i], i, j, l as int, t as int, white, red));
            assert(p3[j][i] == cross_px(p2[j][i], i, j, r as int, t as int, white, red));
            assert(p4[j][i] == cross_px(p3[j][i], i, j, l as int, b as int, white, red));
            assert(img@[j][i] == cross_px(p4[j][i], i, j, r as int, b as int, white, red));
        }
    }
}

/// Draws the guide overlay of the preview (see `overlay_px`): for an
/// input-box balloon the input box, otherwise the text area `vr`, the
/// word-wrap line and the text origin, as the descript `parsed` sets them.
pub fn draw_overlay(img: &mut Image, parsed: &StringHashMap<String>, vr: ValidRect, is_balloonc: bool)
    requires
        old(img).wf(),
        overlay_ok(strs(parsed@), vr, is_balloonc, old(img).w() as i32, old(img).h() as i32),
    ensures
        final(img).wf(),
        final(img).w() == old(img).w(),
        final(img).h() == old(img).h(),
        forall|i: int, j: int|
            0 <= i < old(img).w() && 0 <= j < old(img).h() ==> #[trigger] final(img)@[j][i] == overlay_px(
                old(img)@[j][i],
                i,
                j,
                strs(parsed@),
                vr,
                is_balloonc,
                old(img).w() as i32,
                old(img).h() as i32,
            ),
{
    let iw = img.width() as i32;
    let ih = img.height() as i32;
    proof {
        old(img).lemma_sides();
    }
    assert(0 <= iw && iw == old(img).w() && 0 <= ih && ih == old(img).h());
    let ghost m = strs(parsed@);
    let ghost p0 = img@;
    if is_balloonc {
        let cb_x = int_value(parsed, "communicatebox.x", 10);
        let cb_y = int_value(parsed, "communicatebox.y", 10);
        let cb_w = int_value(parsed, "communicatebox.width", 100);
        let cb_h = int_value(parsed, "communicatebox.height", 30);
        let bl = clamp_exec(cb_x, 0, iw - 1);
        let bt = clamp_exec(if cb_y < 0 {
            ih + cb_y
        } else {
            cb_y
        }, 0, ih - 1);
        let br = (if bl + cb_w < iw {
            bl + cb_w
        } else {
            iw
        }) - 1;
        let bb = (if bt + cb_h < ih {
            bt + cb_h
        } else {
            ih
        }) - 1;
        draw_marked_box(img, bl, bt, br, bb);
    } else {
        let (l, t, r, b) = (vr.left, vr.top, vr.right - 1, vr.bottom - 1);
        draw_marked_box(img, l, t, r, b);
        let ghost p1 = img@;
        let wwx = match parsed.get("wordwrappoint.x") {
            Some(s) => pos_str(s.as_str(), iw),
            None => pos_str("-0", iw),
        };
        if wwx > vr.right {
            draw_vline_dashed(img, wwx, t, b, Rgb(180, 180, 180), Rgb(100, 100, 100));
        } else {
            draw_overlay_vline(img, wwx, t, b, Rgb(255, 255, 255), Rgb(255, 0, 0));
        }
        let ghost p2 = img@;
        let ox = int_value(parsed, "origin.x", 0);
        let oy = int_value(parsed, "origin.y", 0);
        if ox != 0 || oy != 0 {
            draw_cross(img, vr.left + ox, vr.top + oy, Rgb(0, 200, 0), Rgb(0, 200, 0));
        }
        proof {
            assert forall|i: int, j: int| 0 <= i < old(img).w() && 0 <= j < old(img).h() implies #[trigger] img@[j][i]
                == overlay_px(p0[j][i], i, j, m, vr, is_balloonc, iw, ih) by {
                let q = marked_box_px(p0[j][i], i, j, l as int, t as int, r as int, b as int);
                assert(p1[j][i] == q);
                if wwx > vr.right {
                    assert(p2[j][i] == guide_px(q, i, j, wwx as int, t as int, b as int, Rgb(180, 180, 180), Rgb(100, 100, 100), 200));
                } else {
                    assert(p2[j][i] == guide_px(q, i, j, wwx as int, t as int, b as int, Rgb(255, 255, 255), Rgb(255, 0, 0), 255));
                }
            }
        }
    }
}

/// `x` fits in an `i32`.
fn fits_i64(x: i64) -> (r: bool)
    ensures
        r == fits32(x as int),
{
    -2147483648i64 <= x && x <= 2147483647i64
}

/// A cross mark at `(cx, cy)` stays within `i32` arithmetic.
fn cross_fits(cx: i64, cy: i64) -> (r: bool)
    requires
        -0x1_0000_0000_0000 <= cx <= 0x1_0000_0000_0000,
        -0x1_0000_0000_0000 <= cy <= 0x1_0000_0000_0000,
    ensures
        r == cross_ok(cx as int, cy as int),
{
    fits_i64(cx - 6) && fits_i64(cx + 7) && fits_i64(cy - 6) && fits_i64(cy + 6)
}

/// A guide rectangle with corner marks stays within `i32` arithmetic.
fn box_fits(l: i64, t: i64, r: i64, b: i64) -> (ok: bool)
    requires
        -0x1_0000_0000_0000 <= l <= 0x1_0000_0000_0000,
        -0x1_0000_0000_0000 <= t <= 0x1_0000_0000_0000,
        -0x1_0000_0000_0000 <= r <= 0x1_0000_0000_0000,
        -0x1_0000_0000_0000 <= b <= 0x1_0000_0000_0000,
    ensures
        ok == box_ok(l as int, t as int, r as int, b as int),
{
    fits_i64(l - 1) && fits_i64(l + 1) && fits_i64(t - 1) && fits_i64(t + 1) && fits_i64(r - 1) && fits_i64(b - 1)
        && fits_i64(b + 1) && r + 2 <= 2147483647i64 && (l > r || r <= 2147483647i64 - 10) && (t > b || b
        <= 2147483647i64 - 10) && cross_fits(l, t) && cross_fits(r, t) && cross_fits(l, b) && cross_fits(r, b)
}

/// `v.max(lo).min(hi)` on wide integers.
fn clamp_i64(v: i64, lo: i64, hi: i64) -> (r: i64)
    ensures
        r == max_min(v as int, lo as int, hi as int),
{
    let a = if v > lo {
        v
    } else {
        lo
    };
    if a < hi {
        a
    } else {
        hi
    }
}

/// Whether the overlay of a balloon of `iw` × `ih` pixels stays within
/// `i32` arithmetic (see `overlay_ok`), as `draw_overlay` requires.
pub fn overlay_fits(parsed: &StringHashMap<String>, vr: ValidRect, is_balloonc: bool, iw: i32, ih: i32) -> (r: bool)
    ensures
        r == overlay_ok(strs(parsed@), vr, is_balloonc, iw, ih),
{
    let iw64 = iw as i64;
    let ih64 = ih as i64;
    if is_balloonc {
        let x = int_value(parsed, "communicatebox.x", 10) as i64;
        let y = int_value(parsed, "communicatebox.y", 10) as i64;
        let w = int_value(parsed, "communicatebox.width", 100) as i64;
        let h = int_value(parsed, "communicatebox.height", 30) as i64;
        let bl = clamp_i64(x, 0, iw64 - 1);
        let bt = clamp_i64(if y < 0 {
            ih64 + y
        } else {
            y
        }, 0, ih64 - 1);
        let br = (if bl + w < iw64 {
            bl + w
        } else {
            iw64
        }) - 1;
        let bb = (if bt + h < ih64 {
            bt + h
        } else {
            ih64
        }) - 1;
        assert(input_box(strs(parsed@), iw as int, ih as int) == (bl as int, bt as int, br as int, bb as int));
        fits_i64(bl + w) && fits_i64(bt + h) && box_fits(bl, bt, br, bb)
    } else {
        let l = vr.left as i64;
        let t = vr.top as i64;
        let r = vr.right as i64 - 1;
        let b = vr.bottom as i64 - 1;
        let wx = match parsed.get("wordwrappoint.x") {
            Some(s) => pos_str(s.as_str(), iw),
            None => pos_str("-0", iw),
        } as i64;
        assert(wx as int == wrap_x(strs(parsed@), iw));
        let ox = int_value(parsed, "origin.x", 0) as i64;
        let oy = int_value(parsed, "origin.y", 0) as i64;
        let origin_ok = if ox != 0 || oy != 0 {
            fits_i64(l + ox) && fits_i64(t + oy) && cross_fits(l + ox, t + oy)
        } else {
            true
        };
        fits_i64(r) && fits_i64(b) && box_fits(l, t, r, b) && fits_i64(wx - 1) && fits_i64(wx + 1) && origin_ok
    }
}

} // verus!
