//! Lines and outlines of the input-box preview: Bresenham lines, the
//! `mode` pentagon, and the border of the input area.
use vstd::prelude::*;
use crate::color::Rgb;
use crate::defaults::half_toward_zero;
use crate::raster::{draw_hline, draw_vline, painted, set_px, Image, Pixel};

verus! {

/// `|x|`.
pub open spec fn abs_int(x: int) -> int {
    if x < 0 {
        -x
    } else {
        x
    }
}

/// The points Bresenham's line algorithm visits from `(x, y)` on, toward
/// `(x1, y1)`, with running error `err`, for at most `fuel` more steps:
/// each step plots the current point and, unless it is the end point,
/// moves along x where twice the error exceeds `-dy` and along y where it
/// is below `dx`.
pub open spec fn line_steps(
    x: int,
    y: int,
    x1: int,
    y1: int,
    dx: int,
    dy: int,
    sx: int,
    sy: int,
    err: int,
    fuel: nat,
) -> Set<(int, int)>
    decreases fuel,
{
    if fuel == 0 {
        Set::empty()
    } else if x == x1 && y == y1 {
        set![(x, y)]
    } else {
        let e2 = 2 * err;
        let err1 = if e2 > -dy {
            err - dy
        } else {
            err
        };
        let nx = if e2 > -dy {
            x + sx
        } else {
            x
        };
        let err2 = if e2 < dx {
            err1 + dx
        } else {
            err1
        };
        let ny = if e2 < dx {
            y + sy
        } else {
            y
        };
        set![(x, y)].union(line_steps(nx, ny, x1, y1, dx, dy, sx, sy, err2, (fuel - 1) as nat))
    }
}

/// The points of the line from `(x0, y0)` to `(x1, y1)` as Bresenham's
/// algorithm draws it (it reaches the end within `dx + dy + 1` steps).
pub open spec fn line_points(x0: int, y0: int, x1: int, y1: int) -> Set<(int, int)> {
    let dx = abs_int(x1 - x0);
    let dy = abs_int(y1 - y0);
    let sx = if x0 < x1 {
        1int
    } else {
        -1int
    };
    let sy = if y0 < y1 {
        1int
    } else {
        -1int
    };
    line_steps(x0, y0, x1, y1, dx, dy, sx, sy, dx - dy, (dx + dy + 1) as nat)
}

/// Draws the line from `(x0, y0)` to `(x1, y1)` with Bresenham's algorithm
/// (see `line_points`), each point set to `color` at alpha `alpha`; points
/// outside the image are skipped. The arithmetic is done in 64 bits, so no
/// pair of end points overflows it.
pub fn draw_line(img: &mut Image, x0: i32, y0: i32, x1: i32, y1: i32, color: Rgb, alpha: u8)
    requires
        old(img).wf(),
    ensures
        final(img).wf(),
        final(img).w() == old(img).w(),
        final(img).h() == old(img).h(),
        painted(
            final(img)@,
            old(img)@,
            old(img).w(),
            old(img).h(),
            |i: int, j: int| line_points(x0 as int, y0 as int, x1 as int, y1 as int).contains((i, j)),
            Pixel(color.0, color.1, color.2, alpha),
        ),
{
    let v = Pixel(color.0, color.1, color.2, alpha);
    let ghost all = line_points(x0 as int, y0 as int, x1 as int, y1 as int);
    let ghost p0 = img@;
    let (x0, y0, x1, y1) = (x0 as i64, y0 as i64, x1 as i64, y1 as i64);
    let dx = if x1 >= x0 {
        x1 - x0
    } else {
        x0 - x1
    };
    let dy = if y1 >= y0 {
        y1 - y0
    } else {
        y0 - y1
    };
    let sx: i64 = if x0 < x1 {
        1
    } else {
        -1
    };
    let sy: i64 = if y0 < y1 {
        1
    } else {
        -1
    };
    let mut err = dx - dy;
    let mut x = x0;
    let mut y = y0;
    let mut fuel: i64 = dx + dy + 1;
    let ghost mut done: Set<(int, int)> = Set::empty();
    proof {
        img.lemma_grid();
        assert(painted(img@, p0, img.w(), img.h(), |i: int, j: int| done.contains((i, j)), v));
        assert(all =~= done.union(line_steps(x as int, y as int, x1 as int, y1 as int, dx as int, dy as int, sx as int, sy as int, err as int, fuel as nat)));
    }
    while fuel > 0
        invariant_except_break
            0 <= fuel <= dx + dy + 1,
            0 <= dx <= 0xFFFF_FFFF,
            0 <= dy <= 0xFFFF_FFFF,
            sx == 1 || sx == -1,
            sy == 1 || sy == -1,
            -2 * dy <= err <= 2 * dx,
            abs_int(x - x0) <= dx + dy + 1 - fuel,
            abs_int(y - y0) <= dx + dy + 1 - fuel,
            i32::MIN <= x0 <= i32::MAX,
            i32::MIN <= y0 <= i32::MAX,
            all == done.union(line_steps(x as int, y as int, x1 as int, y1 as int, dx as int, dy as int, sx as int, sy as int, err as int, fuel as nat)),
        invariant
            v == Pixel(color.0, color.1, color.2, alpha),
            img.wf(),
            img.w() == old(img).w(),
            img.h() == old(img).h(),
            p0 == old(img)@,
            painted(img@, p0, img.w(), img.h(), |i: int, j: int| done.contains((i, j)), v),
        ensures
            all == done,
        decreases fuel,
    {
        let ghost before = img@;
        let ghost here = (x as int, y as int);
        if -2147483648i64 <= x && x <= 2147483647i64 && -2147483648i64 <= y && y <= 2147483647i64 {
            let xi = x as i32;
            let yi = y as i32;
            assert(xi as int == x && yi as int == y);
            set_px(img, xi, yi, color, alpha);
            assert forall|i: int, j: int| 0 <= i < img.w() && 0 <= j < img.h() implies #[trigger] img@[j][i] == (if i
                == x && j == y {
                v
            } else {
                before[j][i]
            }) by {
                assert(painted(
                    img@,
                    before,
                    img.w(),
                    img.h(),
                    |a: int, b: int| a == xi && b == yi,
                    Pixel(color.0, color.1, color.2, alpha),
                ));
            }
        } else {
            proof {
                img.lemma_sides();
            }
            assert forall|i: int, j: int| 0 <= i < img.w() && 0 <= j < img.h() implies #[trigger] img@[j][i] == (if i
                == x && j == y {
                v
            } else {
                before[j][i]
            }) by {
                assert(i != x || j != y);
                assert(img@ == before);
            }
        }
        proof {
            img.lemma_grid();
            let ghost nd = done.insert(here);
            assert forall|i: int, j: int| 0 <= i < img.w() && 0 <= j < img.h() implies #[trigger] img@[j][i] == (if nd.contains(
                (i, j),
            ) {
                v
            } else {
                p0[j][i]
            }) by {
                assert(nd.contains((i, j)) == (done.contains((i, j)) || (i == x && j == y)));
                assert(img@[j][i] == (if i == x && j == y {
                    v
                } else {
                    before[j][i]
                }));
                assert(before[j][i] == (if done.contains((i, j)) {
                    v
                } else {
                    p0[j][i]
                }));
            }
            done = nd;
        }
        if x == x1 && y == y1 {
            proof {
                assert(line_steps(x as int, y as int, x1 as int, y1 as int, dx as int, dy as int, sx as int, sy as int, err as int, fuel as nat) == set![here]);
                assert(all =~= done);
            }
            break;
        }
        let e2 = 2 * err;
        let ghost s0 = line_steps(x as int, y as int, x1 as int, y1 as int, dx as int, dy as int, sx as int, sy as int, err as int, fuel as nat);
        if e2 > -dy {
            err = err - dy;
            x = x + sx;
        }
        if e2 < dx {
            err = err + dx;
            y = y + sy;
        }
        fuel = fuel - 1;
        proof {
            let rest = line_steps(x as int, y as int, x1 as int, y1 as int, dx as int, dy as int, sx as int, sy as int, err as int, fuel as nat);
            assert(s0 == set![here].union(rest));
            assert(all =~= done.union(rest));
        }
    }
}

/// `x / 10` rounded toward zero.
pub open spec fn tenth_toward_zero(x: int) -> int {
    if x >= 0 {
        x / 10
    } else {
        -((-x) / 10)
    }
}

/// The corners of the `mode` pentagon over `x0..x1` × `y0..y1`: square on
/// the left, a point on the right jutting out by a tenth of the height
/// (at least 4 pixels), in drawing order.
pub open spec fn pentagon_corners(x0: int, y0: int, x1: int, y1: int) -> Seq<(int, int)> {
    let t = tenth_toward_zero(y1 - y0);
    let jut = if t > 4 {
        t
    } else {
        4
    };
    let tip_x = x1 - 1;
    let tip_y = half_toward_zero(y0 + y1);
    seq![(x0, y0), (tip_x - jut, y0), (tip_x, tip_y), (tip_x - jut, y1 - 1), (x0, y1 - 1)]
}

/// The points of the `mode` pentagon's outline: the lines between its
/// corners, the last back to the first.
pub open spec fn pentagon_points(x0: int, y0: int, x1: int, y1: int) -> Set<(int, int)> {
    let c = pentagon_corners(x0, y0, x1, y1);
    line_points(c[0].0, c[0].1, c[1].0, c[1].1).union(line_points(c[1].0, c[1].1, c[2].0, c[2].1)).union(
        line_points(c[2].0, c[2].1, c[3].0, c[3].1),
    ).union(line_points(c[3].0, c[3].1, c[4].0, c[4].1)).union(line_points(c[4].0, c[4].1, c[0].0, c[0].1))
}

/// A point with `i32` coordinates.
pub open spec fn point32(p: (int, int)) -> bool {
    i32::MIN <= p.0 <= i32::MAX && i32::MIN <= p.1 <= i32::MAX
}

/// The pentagon's corners have `i32` coordinates.
pub open spec fn pentagon_fits(x0: int, y0: int, x1: int, y1: int) -> bool {
    let c = pentagon_corners(x0, y0, x1, y1);
    point32(c[0]) && point32(c[1]) && point32(c[2]) && point32(c[3]) && point32(c[4])
}

/// Draws the outline of the `mode` pentagon over `x0..x1` × `y0..y1`
/// (see `pentagon_points`) in `color` at alpha `alpha`.
pub fn draw_pentagon(img: &mut Image, x0: i32, y0: i32, x1: i32, y1: i32, color: Rgb, alpha: u8)
    requires
        old(img).wf(),
        pentagon_fits(x0 as int, y0 as int, x1 as int, y1 as int),
    ensures
        final(img).wf(),
        final(img).w() == old(img).w(),
        final(img).h() == old(img).h(),
        painted(
            final(img)@,
            old(img)@,
            old(img).w(),
            old(img).h(),
            |i: int, j: int| pentagon_points(x0 as int, y0 as int, x1 as int, y1 as int).contains((i, j)),
            Pixel(color.0, color.1, color.2, alpha),
        ),
{
    let ghost c = pentagon_corners(x0 as int, y0 as int, x1 as int, y1 as int);
    let ghost p0 = img@;
    let v = Pixel(color.0, color.1, color.2, alpha);
    let h = y1 as i64 - y0 as i64;
    let t = if h >= 0 {
        h / 10
    } else {
        -((-h) / 10)
    };
    let jut = if t > 4 {
        t
    } else {
        4
    };
    let tip_x = x1 as i64 - 1;
    let s = y0 as i64 + y1 as i64;
    let tip_y = if s >= 0 {
        s / 2
    } else {
        -((-s) / 2)
    };
    assert(c[0].0 == x0 && c[0].1 == y0 && c[1].0 == tip_x - jut && c[1].1 == y0 && c[2].0 == tip_x && c[2].1
        == tip_y && c[3].0 == tip_x - jut && c[3].1 == y1 - 1 && c[4].0 == x0 && c[4].1 == y1 - 1);
    assert(i32::MIN <= c[1].0 <= i32::MAX);
    assert(i32::MIN <= c[2].0 <= i32::MAX && i32::MIN <= c[2].1 <= i32::MAX);
    assert(i32::MIN <= c[3].1 <= i32::MAX);
    let ax = (tip_x - jut) as i32;
    let tx = tip_x as i32;
    let ty = tip_y as i32;
    let by = (y1 as i64 - 1) as i32;
    draw_line(img, x0, y0, ax, y0, color, alpha);
    let ghost p1 = img@;
    draw_line(img, ax, y0, tx, ty, color, alpha);
    let ghost p2 = img@;
    draw_line(img, tx, ty, ax, by, color, alpha);
    let ghost p3 = img@;
    draw_line(img, ax, by, x0, by, color, alpha);
    let ghost p4 = img@;
    draw_line(img, x0, by, x0, y0, color, alpha);
    proof {
        img.lemma_grid();
        let all = pentagon_points(x0 as int, y0 as int, x1 as int, y1 as int);
        assert forall|i: int, j: int| 0 <= i < img.w() && 0 <= j < img.h() implies #[trigger] img@[j][i] == (if all.contains(
            (i, j),
        ) {
            v
        } else {
            p0[j][i]
        }) by {
            let l1 = line_points(x0 as int, y0 as int, ax as int, y0 as int);
            let l2 = line_points(ax as int, y0 as int, tx as int, ty as int);
            let l3 = line_points(tx as int, ty as int, ax as int, by as int);
            let l4 = line_points(ax as int, by as int, x0 as int, by as int);
            let l5 = line_points(x0 as int, by as int, x0 as int, y0 as int);
            assert(all == l1.union(l2).union(l3).union(l4).union(l5));
            assert(p1[j][i] == (if l1.contains((i, j)) { v } else { p0[j][i] }));
            assert(p2[j][i] == (if l2.contains((i, j)) { v } else { p1[j][i] }));
            assert(p3[j][i] == (if l3.contains((i, j)) { v } else { p2[j][i] }));
            assert(p4[j][i] == (if l4.contains((i, j)) { v } else { p3[j][i] }));
            assert(img@[j][i] == (if l5.contains((i, j)) { v } else { p4[j][i] }));
        }
    }
}

/// A pixel of the input area's border over `x0..x1` × `y0..y1`: its left
/// and right columns white, its bottom row blue, its top row white.
pub open spec fn border_px(p: Pixel, i: int, j: int, x0: int, y0: int, x1: int, y1: int) -> Pixel {
    if (i == x0 || i == x1 - 1) && y0 <= j < y1 {
        Pixel(255, 255, 255, 255)
    } else if j == y1 - 1 && x0 <= i < x1 {
        Pixel(0, 0, 255, 255)
    } else if j == y0 && x0 <= i < x1 {
        Pixel(255, 255, 255, 255)
    } else {
        p
    }
}

/// Draws the border of the input area `x0..x1` × `y0..y1` (see `border_px`).
pub fn draw_input_border(img: &mut Image, x0: i32, y0: i32, x1: i32, y1: i32)
    requires
        old(img).wf(),
        x1 > i32::MIN,
        y1 > i32::MIN,
    ensures
        final(img).wf(),
        final(img).w() == old(img).w(),
        final(img).h() == old(img).h(),
        forall|i: int, j: int|
            0 <= i < old(img).w() && 0 <= j < old(img).h() ==> #[trigger] final(img)@[j][i] == border_px(
                old(img)@[j][i],
                i,
                j,
                x0 as int,
                y0 as int,
                x1 as int,
                y1 as int,
            ),
{
    let white = Rgb(255, 255, 255);
    let blue = Rgb(0, 0, 255);
    let ghost p0 = img@;
    draw_hline(img, x0, y0, x1, white, 255);
    let ghost p1 = img@;
    draw_hline(img, x0, y1 - 1, x1, blue, 255);
    let ghost p2 = img@;
    draw_vline(img, x0, y0, y1 - 1, white, 255);
    let ghost p3 = img@;
    draw_vline(img, x1 - 1, y0, y1 - 1, white, 255);
    proof {
        assert forall|i: int, j: int| 0 <= i < old(img).w() && 0 <= j < old(img).h() implies #[trigger] img@[j][i]
            == border_px(p0[j][i], i, j, x0 as int, y0 as int, x1 as int, y1 as int) by {
            assert(p1[j][i] == (if j == y0 && x0 <= i < x1 { Pixel(255, 255, 255, 255) } else { p0[j][i] }));
            assert(p2[j][i] == (if j == y1 - 1 && x0 <= i < x1 { Pixel(0, 0, 255, 255) } else { p1[j][i] }));
            assert(p3[j][i] == (if i == x0 && y0 <= j <= y1 - 1 { Pixel(255, 255, 255, 255) } else { p2[j][i] }));
        }
    }
}

} // verus!
