//! The input box an input-box balloon (`balloonc…`) previews: where its
//! input area and its buttons go, and drawing them (the sample text and
//! the button labels aside).
use vstd::prelude::*;
use vstd::hash_map::StringHashMap;
use crate::defaults::half_toward_zero;
use crate::descript::strs;
use crate::markers::stem_without_png;
use crate::editing::without_png;
use crate::overlay::{int_or, int_value, max_min};
use crate::rows::{find_sub, find_sub_in};
use crate::text::chars_of;
use crate::color::Rgb;
use crate::fonts::{color_of, get_color};
use crate::markers::paste_view;
use crate::raster::{alpha_paste, blended, draw_rect_outline, fill_rect, fits32, on_outline, Image, Pixel};
use crate::shapes::{border_px, draw_input_border, draw_pentagon, pentagon_corners, pentagon_fits, pentagon_points, tenth_toward_zero};

verus! {

/// The button images of an input box.
#[derive(Debug, Clone, Copy, PartialEq, Eq, Structural)]
pub enum ButtonImage {
    /// The OK button.
    Accept,
    Cancel,
    Mode,
}

/// The part image of a button.
pub open spec fn button_file(b: ButtonImage) -> Seq<char> {
    match b {
        ButtonImage::Accept => "ok_up.png"@,
        ButtonImage::Cancel => "cancel_up.png"@,
        ButtonImage::Mode => "mode_up.png"@,
    }
}

/// The part image of a button (see `button_file`).
pub fn button_file_name(b: ButtonImage) -> (r: &'static str)
    ensures
        r@ == button_file(b),
{
    match b {
        ButtonImage::Accept => "ok_up.png",
        ButtonImage::Cancel => "cancel_up.png",
        ButtonImage::Mode => "mode_up.png",
    }
}

/// How one button of the input box is drawn.
#[derive(Debug, Clone, Copy, PartialEq, Eq, Structural)]
pub enum ButtonDraw {
    /// Its image, with its top-left corner at `(x, y)`.
    Pasted(ButtonImage, i64, i64),
    /// A square outline over `x0..x1` × `y0..y1` (with a text label).
    Square(i64, i64, i64, i64),
    /// The `mode` pentagon over `x0..x1` × `y0..y1` (with a text label).
    Pentagon(i64, i64, i64, i64),
}

/// Where the parts of an input box go: the input area `x0..x1` ×
/// `y0..y1`, then the buttons in the order they are drawn.
pub struct InputBoxPlan {
    pub x0: i64,
    pub y0: i64,
    pub x1: i64,
    pub y1: i64,
    pub buttons: Vec<ButtonDraw>,
}

/// The smaller of two integers.
pub open spec fn min_of(a: int, b: int) -> int {
    if a <= b {
        a
    } else {
        b
    }
}

/// The whole box, `(left, top, right, bottom)` with right and bottom
/// excluded: `communicatebox.x/y` (a negative `y` counted from the bottom)
/// kept inside the image, `communicatebox.width/height` cut at its edges.
pub open spec fn cb_box(m: Map<Seq<char>, Seq<char>>, iw: int, ih: int) -> (int, int, int, int) {
    let x = int_or(m, "communicatebox.x"@, 10);
    let y = int_or(m, "communicatebox.y"@, 10);
    let w = int_or(m, "communicatebox.width"@, 100);
    let h = int_or(m, "communicatebox.height"@, 30);
    let bl = max_min(x, 0, iw - 1);
    let bt = max_min(
        if y < 0 {
            ih + y
        } else {
            y
        },
        0,
        ih - 1,
    );
    (bl, bt, min_of(bl + w, iw), min_of(bt + h, ih))
}

/// The fifth input box (a `mode` button on its left): a balloon name
/// whose stem ends in `4` and contains `balloonc`.
pub open spec fn fifth_box(name: Seq<char>) -> bool {
    let s = without_png(name);
    s.len() > 0 && s.last() == '4' && find_sub(s, "balloonc"@) is Some
}

/// The width of part image `f`, or `d` where there is none.
pub open spec fn width_or(sizes: Map<Seq<char>, (u32, u32)>, f: Seq<char>, d: int) -> int {
    if sizes.contains_key(f) {
        sizes[f].0 as int
    } else {
        d
    }
}

/// A button: its image where there is one, at `x` and centred in the box
/// height `ch` below `top`; else the fallback.
pub open spec fn button_at(
    sizes: Map<Seq<char>, (u32, u32)>,
    b: ButtonImage,
    x: int,
    top: int,
    ch: int,
    fallback: ButtonDraw,
) -> ButtonDraw {
    if sizes.contains_key(button_file(b)) {
        ButtonDraw::Pasted(b, x as i64, (top + half_toward_zero(ch - sizes[button_file(b)].1)) as i64)
    } else {
        fallback
    }
}

/// The plan of the input box of balloon `name` in an image of `iw` × `ih`:
/// none where the box is empty. The fifth box has the `mode` button (or a
/// pentagon twice the box height wide) on the left and the cancel button
/// (or a square) on the right; the others the OK and cancel buttons (or
/// squares) on the right; the input area takes the rest.
pub open spec fn input_box_plan_of(
    m: Map<Seq<char>, Seq<char>>,
    sizes: Map<Seq<char>, (u32, u32)>,
    name: Seq<char>,
    iw: int,
    ih: int,
) -> Option<(int, int, int, int, Seq<ButtonDraw>)> {
    let (bl, bt, br, bb) = cb_box(m, iw, ih);
    let ch = int_or(m, "communicatebox.height"@, 30);
    if br <= bl || bb <= bt {
        None
    } else if fifth_box(name) {
        let cancel_w = width_or(sizes, "cancel_up.png"@, ch);
        let mode_w = width_or(sizes, "mode_up.png"@, ch * 2);
        let mode = button_at(
            sizes,
            ButtonImage::Mode,
            bl,
            bt,
            ch,
            ButtonDraw::Pentagon(bl as i64, bt as i64, (bl + mode_w) as i64, bb as i64),
        );
        let cancel = button_at(
            sizes,
            ButtonImage::Cancel,
            br - cancel_w,
            bt,
            ch,
            ButtonDraw::Square((br - cancel_w) as i64, bt as i64, br as i64, bb as i64),
        );
        Some((bl + mode_w, bt, br - cancel_w, bb, seq![mode, cancel]))
    } else {
        let ok_w = width_or(sizes, "ok_up.png"@, ch);
        let cancel_w = width_or(sizes, "cancel_up.png"@, ch);
        let ir = br - ok_w - cancel_w;
        let ok = button_at(
            sizes,
            ButtonImage::Accept,
            ir,
            bt,
            ch,
            ButtonDraw::Square(ir as i64, bt as i64, (ir + ok_w) as i64, bb as i64),
        );
        let cancel = button_at(
            sizes,
            ButtonImage::Cancel,
            br - cancel_w,
            bt,
            ch,
            ButtonDraw::Square((br - cancel_w) as i64, bt as i64, br as i64, bb as i64),
        );
        Some((bl, bt, ir, bb, seq![ok, cancel]))
    }
}

/// `x / 2` rounded toward zero.
fn half_i64(x: i64) -> (r: i64)
    requires
        -0x1_0000_0000_0000 <= x,
    ensures
        r == half_toward_zero(x as int),
{
    if x >= 0 {
        x / 2
    } else {
        -((-x) / 2)
    }
}

/// A button (see `button_at`).
fn button_exec(
    sizes: &StringHashMap<(u32, u32)>,
    b: ButtonImage,
    x: i64,
    top: i64,
    ch: i64,
    fallback: ButtonDraw,
) -> (r: ButtonDraw)
    requires
        -0x100_0000_0000 <= x <= 0x100_0000_0000,
        -0x100_0000_0000 <= top <= 0x100_0000_0000,
        -0x100_0000_0000 <= ch <= 0x100_0000_0000,
    ensures
        r == button_at(sizes@, b, x as int, top as int, ch as int, fallback),
{
    match sizes.get(button_file_name(b)) {
        Some(s) => ButtonDraw::Pasted(b, x, top + half_i64(ch - s.1 as i64)),
        None => fallback,
    }
}

/// The width of part image `f`, or `d` (see `width_or`).
fn width_exec(sizes: &StringHashMap<(u32, u32)>, f: &str, d: i64) -> (r: i64)
    ensures
        r == width_or(sizes@, f@, d as int),
{
    match sizes.get(f) {
        Some(s) => s.0 as i64,
        None => d,
    }
}

/// Whether balloon `name` is the fifth input box (see `fifth_box`).
fn fifth_box_exec(name: &str) -> (r: bool)
    ensures
        r == fifth_box(name@),
{
    let s = stem_without_png(name);
    if s.len() == 0 || s[s.len() - 1] != '4' {
        return false;
    }
    let p = chars_of("balloonc");
    assert(s@.subrange(0, s@.len() as int) =~= s@);
    find_sub_in(&s, 0, s.len(), &p).is_some()
}

/// The whole box (see `cb_box`) and the box height.
fn box_exec(parsed: &StringHashMap<String>, iw: i64, ih: i64) -> (r: (i64, i64, i64, i64, i64))
    requires
        0 <= iw <= i32::MAX,
        0 <= ih <= i32::MAX,
    ensures
        cb_box(strs(parsed@), iw as int, ih as int) == (r.0 as int, r.1 as int, r.2 as int, r.3 as int),
        r.4 as int == int_or(strs(parsed@), "communicatebox.height"@, 30),
        -1 <= r.0 <= i32::MAX,
        -1 <= r.1 <= i32::MAX,
        -0x4_0000_0000 <= r.2 <= 0x4_0000_0000,
        -0x4_0000_0000 <= r.3 <= 0x4_0000_0000,
        i32::MIN <= r.4 <= i32::MAX,
{
    let x = int_value(parsed, "communicatebox.x", 10) as i64;
    let y = int_value(parsed, "communicatebox.y", 10) as i64;
    let w = int_value(parsed, "communicatebox.width", 100) as i64;
    let ch = int_value(parsed, "communicatebox.height", 30) as i64;
    let bl0 = if x > 0 {
        x
    } else {
        0
    };
    let bl = if bl0 < iw - 1 {
        bl0
    } else {
        iw - 1
    };
    let ty = if y < 0 {
        ih + y
    } else {
        y
    };
    let bt0 = if ty > 0 {
        ty
    } else {
        0
    };
    let bt = if bt0 < ih - 1 {
        bt0
    } else {
        ih - 1
    };
    let br = if bl + w <= iw {
        bl + w
    } else {
        iw
    };
    let bb = if bt + ch <= ih {
        bt + ch
    } else {
        ih
    };
    (bl, bt, br, bb, ch)
}

/// The plan of the fifth input box, given the whole box.
fn plan_fifth(sizes: &StringHashMap<(u32, u32)>, bl: i64, bt: i64, br: i64, bb: i64, ch: i64) -> (r: InputBoxPlan)
    requires
        -1 <= bl <= i32::MAX,
        -1 <= bt <= i32::MAX,
        -0x4_0000_0000 <= br <= 0x4_0000_0000,
        -0x4_0000_0000 <= bb <= 0x4_0000_0000,
        i32::MIN <= ch <= i32::MAX,
    ensures
        ({
            let cancel_w = width_or(sizes@, "cancel_up.png"@, ch as int);
            let mode_w = width_or(sizes@, "mode_up.png"@, ch * 2);
            let mode = button_at(
                sizes@,
                ButtonImage::Mode,
                bl as int,
                bt as int,
                ch as int,
                ButtonDraw::Pentagon(bl, bt, (bl + mode_w) as i64, bb),
            );
            let cancel = button_at(
                sizes@,
                ButtonImage::Cancel,
                br - cancel_w,
                bt as int,
                ch as int,
                ButtonDraw::Square((br - cancel_w) as i64, bt, br, bb),
            );
            r.x0 == bl + mode_w && r.y0 == bt && r.x1 == br - cancel_w && r.y1 == bb && r.buttons@ == seq![mode, cancel]
        }),
{
    let cancel_w = width_exec(sizes, "cancel_up.png", ch);
    let mode_w = width_exec(sizes, "mode_up.png", ch * 2);
    let mode = button_exec(sizes, ButtonImage::Mode, bl, bt, ch, ButtonDraw::Pentagon(bl, bt, bl + mode_w, bb));
    let cancel = button_exec(
        sizes,
        ButtonImage::Cancel,
        br - cancel_w,
        bt,
        ch,
        ButtonDraw::Square(br - cancel_w, bt, br, bb),
    );
    let mut buttons: Vec<ButtonDraw> = Vec::new();
    buttons.push(mode);
    buttons.push(cancel);
    assert(buttons@ =~= seq![mode, cancel]);
    InputBoxPlan { x0: bl + mode_w, y0: bt, x1: br - cancel_w, y1: bb, buttons }
}

/// The plan of the other input boxes, given the whole box.
fn plan_plain(sizes: &StringHashMap<(u32, u32)>, bl: i64, bt: i64, br: i64, bb: i64, ch: i64) -> (r: InputBoxPlan)
    requires
        -1 <= bl <= i32::MAX,
        -1 <= bt <= i32::MAX,
        -0x4_0000_0000 <= br <= 0x4_0000_0000,
        -0x4_0000_0000 <= bb <= 0x4_0000_0000,
        i32::MIN <= ch <= i32::MAX,
    ensures
        ({
            let ok_w = width_or(sizes@, "ok_up.png"@, ch as int);
            let cancel_w = width_or(sizes@, "cancel_up.png"@, ch as int);
            let ir = br - ok_w - cancel_w;
            let ok = button_at(
                sizes@,
                ButtonImage::Accept,
                ir,
                bt as int,
                ch as int,
                ButtonDraw::Square(ir as i64, bt, (ir + ok_w) as i64, bb),
            );
            let cancel = button_at(
                sizes@,
                ButtonImage::Cancel,
                br - cancel_w,
                bt as int,
                ch as int,
                ButtonDraw::Square((br - cancel_w) as i64, bt, br, bb),
            );
            r.x0 == bl && r.y0 == bt && r.x1 == ir && r.y1 == bb && r.buttons@ == seq![ok, cancel]
        }),
{
    let ok_w = width_exec(sizes, "ok_up.png", ch);
    let cancel_w = width_exec(sizes, "cancel_up.png", ch);
    let ir = br - ok_w - cancel_w;
    let ok = button_exec(sizes, ButtonImage::Accept, ir, bt, ch, ButtonDraw::Square(ir, bt, ir + ok_w, bb));
    let cancel = button_exec(
        sizes,
        ButtonImage::Cancel,
        br - cancel_w,
        bt,
        ch,
        ButtonDraw::Square(br - cancel_w, bt, br, bb),
    );
    let mut buttons: Vec<ButtonDraw> = Vec::new();
    buttons.push(ok);
    buttons.push(cancel);
    assert(buttons@ =~= seq![ok, cancel]);
    InputBoxPlan { x0: bl, y0: bt, x1: ir, y1: bb, buttons }
}

/// The plan of the input box of balloon `name` (see `input_box_plan_of`);
/// `sizes` gives the part images by name, `iw` × `ih` is the balloon's size.
pub fn input_box_plan(
    parsed: &StringHashMap<String>,
    sizes: &StringHashMap<(u32, u32)>,
    name: &str,
    iw: i32,
    ih: i32,
) -> (r: Option<InputBoxPlan>)
    requires
        0 <= iw,
        0 <= ih,
    ensures
        match (r, input_box_plan_of(strs(parsed@), sizes@, name@, iw as int, ih as int)) {
            (Some(p), Some((x0, y0, x1, y1, bs))) => p.x0 == x0 && p.y0 == y0 && p.x1 == x1 && p.y1 == y1
                && p.buttons@ == bs,
            (None, None) => true,
            _ => false,
        },
{
    let (bl, bt, br, bb, ch) = box_exec(parsed, iw as i64, ih as i64);
    if br <= bl || bb <= bt {
        return None;
    }
    if fifth_box_exec(name) {
        Some(plan_fifth(sizes, bl, bt, br, bb, ch))
    } else {
        Some(plan_plain(sizes, bl, bt, br, bb, ch))
    }
}

/// `f` applied to every pixel of `d`, with its column and row.
pub open spec fn map_px(d: Seq<Seq<Pixel>>, f: spec_fn(Pixel, int, int) -> Pixel) -> Seq<Seq<Pixel>> {
    Seq::new(d.len(), |j: int| Seq::new(d[j].len(), |i: int| f(d[j][i], i, j)))
}

/// `d` with one button drawn: its image pasted, or the outline of its
/// square (alpha 180) or pentagon (alpha 200) in the text colour `fc`.
pub open spec fn button_view(d: Seq<Seq<Pixel>>, b: ButtonDraw, parts: Map<Seq<char>, Image>, fc: Rgb) -> Seq<
    Seq<Pixel>,
> {
    match b {
        ButtonDraw::Pasted(bi, x, y) => paste_view(d, parts[button_file(bi)], x as int, y as int),
        ButtonDraw::Square(x0, y0, x1, y1) => map_px(
            d,
            |p: Pixel, i: int, j: int|
                if on_outline(i, j, x0 as int, y0 as int, x1 - 1, y1 - 1) {
                    Pixel(fc.0, fc.1, fc.2, 180)
                } else {
                    p
                },
        ),
        ButtonDraw::Pentagon(x0, y0, x1, y1) => map_px(
            d,
            |p: Pixel, i: int, j: int|
                if pentagon_points(x0 as int, y0 as int, x1 as int, y1 as int).contains((i, j)) {
                    Pixel(fc.0, fc.1, fc.2, 200)
                } else {
                    p
                },
        ),
    }
}

/// `d` with the buttons drawn in order.
pub open spec fn buttons_view(d: Seq<Seq<Pixel>>, bs: Seq<ButtonDraw>, parts: Map<Seq<char>, Image>, fc: Rgb) -> Seq<
    Seq<Pixel>,
>
    decreases bs.len(),
{
    if bs.len() == 0 {
        d
    } else {
        button_view(buttons_view(d, bs.drop_last(), parts, fc), bs.last(), parts, fc)
    }
}

/// The balloon image `d` with the input box of the plan drawn: the input
/// area filled with `bg`, its border, then the buttons.
pub open spec fn input_box_view(
    d: Seq<Seq<Pixel>>,
    x0: int,
    y0: int,
    x1: int,
    y1: int,
    bs: Seq<ButtonDraw>,
    parts: Map<Seq<char>, Image>,
    bg: Rgb,
    fc: Rgb,
) -> Seq<Seq<Pixel>> {
    let filled = map_px(
        d,
        |p: Pixel, i: int, j: int|
            if x0 <= i < x1 && y0 <= j < y1 {
                blended(p, bg, 255)
            } else {
                p
            },
    );
    let bordered = map_px(filled, |p: Pixel, i: int, j: int| border_px(p, i, j, x0, y0, x1, y1));
    buttons_view(bordered, bs, parts, fc)
}

/// `x` is an `i32` value.
pub open spec fn in32(x: int) -> bool {
    i32::MIN <= x <= i32::MAX
}

/// A button can be drawn within `i32` coordinates: a pasted image exists,
/// is well-formed and its far corner fits; an outline's corners fit.
pub open spec fn button_drawable(b: ButtonDraw, parts: Map<Seq<char>, Image>) -> bool {
    match b {
        ButtonDraw::Pasted(bi, x, y) => {
            let img = parts[button_file(bi)];
            &&& parts.contains_key(button_file(bi))
            &&& img.wf()
            &&& in32(x as int) && in32(y as int)
            &&& img.w() > 0 && img.h() > 0 ==> fits32(x + img.w() - 1) && fits32(y + img.h() - 1)
        },
        ButtonDraw::Square(x0, y0, x1, y1) => in32(x0 as int) && in32(y0 as int) && in32(x1 - 1) && in32(y1 - 1)
            && x1 - 1 < i32::MAX,
        ButtonDraw::Pentagon(x0, y0, x1, y1) => in32(x0 as int) && in32(y0 as int) && in32(x1 as int) && in32(
            y1 as int,
        ) && pentagon_fits(x0 as int, y0 as int, x1 as int, y1 as int),
    }
}

/// The plan can be drawn within `i32` coordinates.
pub open spec fn plan_drawable(
    x0: int,
    y0: int,
    x1: int,
    y1: int,
    bs: Seq<ButtonDraw>,
    parts: Map<Seq<char>, Image>,
) -> bool {
    &&& in32(x0) && in32(y0) && in32(x1) && in32(y1) && x1 > i32::MIN && y1 > i32::MIN
    &&& forall|k: int| 0 <= k < bs.len() ==> button_drawable(#[trigger] bs[k], parts)
}

/// `x` is an `i32` value.
fn in32_exec(x: i64) -> (r: bool)
    ensures
        r == in32(x as int),
{
    -2147483648i64 <= x && x <= 2147483647i64
}

/// Whether a button can be drawn (see `button_drawable`).
fn button_drawable_exec(b: ButtonDraw, parts: &StringHashMap<Image>) -> (r: bool)
    ensures
        r == button_drawable(b, parts@),
{
    match b {
        ButtonDraw::Pasted(bi, x, y) => match parts.get(button_file_name(bi)) {
            Some(img) => {
                if !img.is_wf() || !in32_exec(x) || !in32_exec(y) {
                    return false;
                }
                let w = img.width() as i64;
                let h = img.height() as i64;
                if w > 0 && h > 0 {
                    in32_exec(x + w - 1) && in32_exec(y + h - 1)
                } else {
                    true
                }
            },
            None => false,
        },
        ButtonDraw::Square(x0, y0, x1, y1) => {
            if !(-0x4000_0000_0000i64 <= x1 && x1 <= 0x4000_0000_0000i64 && -0x4000_0000_0000i64 <= y1 && y1
                <= 0x4000_0000_0000i64) {
                return false;
            }
            in32_exec(x0) && in32_exec(y0) && in32_exec(x1 - 1) && in32_exec(y1 - 1) && x1 - 1 < 2147483647i64
        },
        ButtonDraw::Pentagon(x0, y0, x1, y1) => {
            if !(in32_exec(x0) && in32_exec(y0) && in32_exec(x1) && in32_exec(y1)) {
                return false;
            }
            let h = y1 - y0;
            let t = if h >= 0 {
                h / 10
            } else {
                -((-h) / 10)
            };
            let jut = if t > 4 {
                t
            } else {
                4
            };
            let tip_x = x1 - 1;
            let s = y0 + y1;
            let tip_y = if s >= 0 {
                s / 2
            } else {
                -((-s) / 2)
            };
            let ghost c = pentagon_corners(x0 as int, y0 as int, x1 as int, y1 as int);
            assert(c[0] == (x0 as int, y0 as int) && c[1] == (tip_x - jut, y0 as int) && c[2] == (tip_x as int, tip_y as int)
                && c[3] == (tip_x - jut, y1 - 1) && c[4] == (x0 as int, y1 - 1));
            let r = in32_exec(tip_x - jut) && in32_exec(tip_x) && in32_exec(tip_y) && in32_exec(y1 - 1);
            r
        },
    }
}

/// Whether the plan can be drawn within `i32` coordinates (see
/// `plan_drawable`), as `draw_input_box` requires.
pub fn input_box_drawable(plan: &InputBoxPlan, parts: &StringHashMap<Image>) -> (r: bool)
    ensures
        r == plan_drawable(
            plan.x0 as int,
            plan.y0 as int,
            plan.x1 as int,
            plan.y1 as int,
            plan.buttons@,
            parts@,
        ),
{
    if !(in32_exec(plan.x0) && in32_exec(plan.y0) && in32_exec(plan.x1) && in32_exec(plan.y1) && plan.x1
        > -2147483648i64 && plan.y1 > -2147483648i64) {
        return false;
    }
    let mut k: usize = 0;
    while k < plan.buttons.len()
        invariant
            k <= plan.buttons@.len(),
            forall|q: int| 0 <= q < k ==> button_drawable(#[trigger] plan.buttons@[q], parts@),
        decreases plan.buttons@.len() - k,
    {
        if !button_drawable_exec(plan.buttons[k], parts) {
            return false;
        }
        k = k + 1;
    }
    true
}

/// Draws the input box of a plan onto the balloon image: the input area
/// filled with `bg`, its border, then each button (see `input_box_view`).
pub fn draw_input_box(img: &mut Image, plan: &InputBoxPlan, parts: &StringHashMap<Image>, bg: Rgb, fc: Rgb)
    requires
        old(img).wf(),
        plan_drawable(plan.x0 as int, plan.y0 as int, plan.x1 as int, plan.y1 as int, plan.buttons@, parts@),
    ensures
        final(img).wf(),
        final(img).w() == old(img).w(),
        final(img).h() == old(img).h(),
        final(img)@ == input_box_view(
            old(img)@,
            plan.x0 as int,
            plan.y0 as int,
            plan.x1 as int,
            plan.y1 as int,
            plan.buttons@,
            parts@,
            bg,
            fc,
        ),
{
    let ghost d0 = img@;
    let (x0, y0, x1, y1) = (plan.x0 as i32, plan.y0 as i32, plan.x1 as i32, plan.y1 as i32);
    let ghost filled = map_px(
        d0,
        |p: Pixel, i: int, j: int|
            if x0 <= i < x1 && y0 <= j < y1 {
                blended(p, bg, 255)
            } else {
                p
            },
    );
    proof {
        img.lemma_grid();
    }
    fill_rect(img, x0, y0, x1, y1, bg, 255);
    proof {
        img.lemma_grid();
        assert forall|j: int| 0 <= j < img.h() implies #[trigger] img@[j] =~= filled[j] by {
            assert forall|i: int| 0 <= i < img.w() implies img@[j][i] == filled[j][i] by {}
        }
        assert(img@ =~= filled);
    }
    let ghost bordered = map_px(filled, |p: Pixel, i: int, j: int| border_px(p, i, j, x0 as int, y0 as int, x1 as int, y1 as int));
    draw_input_border(img, x0, y0, x1, y1);
    proof {
        img.lemma_grid();
        assert forall|j: int| 0 <= j < img.h() implies #[trigger] img@[j] =~= bordered[j] by {
            assert forall|i: int| 0 <= i < img.w() implies img@[j][i] == bordered[j][i] by {}
        }
        assert(img@ =~= bordered);
    }
    let ghost bs = plan.buttons@;
    let mut k: usize = 0;
    assert(bs.take(0) =~= Seq::<ButtonDraw>::empty());
    while k < plan.buttons.len()
        invariant
            k <= bs.len(),
            bs == plan.buttons@,
            plan_drawable(plan.x0 as int, plan.y0 as int, plan.x1 as int, plan.y1 as int, bs, parts@),
            img.wf(),
            img.w() == old(img).w(),
            img.h() == old(img).h(),
            img@ == buttons_view(bordered, bs.take(k as int), parts@, fc),
        decreases bs.len() - k,
    {
        let ghost before = img@;
        proof {
            img.lemma_grid();
        }
        let b = plan.buttons[k];
        assert(button_drawable(bs[k as int], parts@));
        match b {
            ButtonDraw::Pasted(bi, x, y) => {
                match parts.get(button_file_name(bi)) {
                    Some(src) => {
                        alpha_paste(img, src, x as i32, y as i32);
                        proof {
                            img.lemma_grid();
                            let pw = paste_view(before, *src, x as int, y as int);
                            assert forall|j: int| 0 <= j < img.h() implies #[trigger] img@[j] =~= pw[j] by {
                                assert forall|i: int| 0 <= i < img.w() implies img@[j][i] == pw[j][i] by {}
                            }
                            assert(img@ =~= pw);
                        }
                    },
                    None => {},
                }
            },
            ButtonDraw::Square(sx0, sy0, sx1, sy1) => {
                draw_rect_outline(img, sx0 as i32, sy0 as i32, (sx1 - 1) as i32, (sy1 - 1) as i32, fc, 180);
                proof {
                    img.lemma_grid();
                    let sq = button_view(before, b, parts@, fc);
                    assert forall|j: int| 0 <= j < img.h() implies #[trigger] img@[j] =~= sq[j] by {
                        assert forall|i: int| 0 <= i < img.w() implies img@[j][i] == sq[j][i] by {}
                    }
                    assert(img@ =~= sq);
                }
            },
            ButtonDraw::Pentagon(px0, py0, px1, py1) => {
                draw_pentagon(img, px0 as i32, py0 as i32, px1 as i32, py1 as i32, fc, 200);
                proof {
                    img.lemma_grid();
                    let pg = button_view(before, b, parts@, fc);
                    assert forall|j: int| 0 <= j < img.h() implies #[trigger] img@[j] =~= pg[j] by {
                        assert forall|i: int| 0 <= i < img.w() implies img@[j][i] == pg[j][i] by {}
                    }
                    assert(img@ =~= pg);
                }
            },
        }
        proof {
            assert(bs.take(k + 1).drop_last() =~= bs.take(k as int));
            assert(bs.take(k + 1).last() == bs[k as int]);
        }
        k = k + 1;
    }
    assert(bs.take(bs.len() as int) =~= bs);
}

/// The colour a descript gives `key`, or `d`.
pub open spec fn color_or(m: Map<Seq<char>, Seq<char>>, key: Seq<char>, d: Rgb) -> Rgb {
    match color_of(m, key) {
        Some(c) => c,
        None => d,
    }
}

/// The colours of the input box: its background (white by default) and
/// its text colour, used for the button outlines (black by default).
pub fn input_box_colors(parsed: &StringHashMap<String>) -> (r: (Rgb, Rgb))
    ensures
        r.0 == color_or(strs(parsed@), "communicatebox.background.color"@, Rgb(255, 255, 255)),
        r.1 == color_or(strs(parsed@), "communicatebox.font.color"@, Rgb(0, 0, 0)),
{
    let bg = match get_color(parsed, "communicatebox.background.color") {
        Some(c) => c,
        None => Rgb(255, 255, 255),
    };
    let fc = match get_color(parsed, "communicatebox.font.color") {
        Some(c) => c,
        None => Rgb(0, 0, 0),
    };
    (bg, fc)
}

} // verus!
