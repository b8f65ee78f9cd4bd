//! Editing positions by dragging on the preview: reading a part's current
//! position from `descript.txt`, moving it, keeping it inside the balloon,
//! and writing it back in the notation it had (counted from the near or
//! the far edge).
use vstd::prelude::*;
use vstd::hash_map::StringHashMap;
use crate::descript::{parse_descript, pos_str, pos_value, set_descript_value, set_value_text, strs, lemma_models_strs, descript_map};
use crate::num::{int_numeral, int_to_string, lemma_parse_numeral, parse_i32, parse_in_range};
use crate::text::{chars_of, ends_with, split_lines, starts_with_at, trim, trim_bounds, string_of};
use crate::descript_laws::{clean_key, law_set_keeps_clean_values, law_set_keeps_regular, law_set_then_read, lemma_clean_trim_end, lemma_numeral_clean, lemma_plain_word, regular_for};

verus! {

/// The part whose position a drag edits.
#[derive(Debug, Clone, Copy, PartialEq, Eq, Structural)]
pub enum DragEditTarget {
    /// `arrow0.x` / `arrow0.y`
    Arrow0,
    /// `arrow1.x` / `arrow1.y`
    Arrow1,
    /// `clickwaitmarker.x` / `.y`
    ClickWait,
    /// `sstpmarker.x` / `.y`
    SstpMarker,
    /// `sstpmessage.x` / `.y`
    SstpMessage,
    /// `onlinemarker.x` / `.y`
    OnlineMarker,
    /// `number.xr` / `number.y`
    Counter,
    /// the four sides `validrect.top/bottom/left/right`
    ValidRect,
    /// `wordwrappoint.x`
    WordWrap,
    /// the four sides of the input box `communicatebox.*`
    CommunicateBox,
}

/// The side of a rectangle being dragged.
#[derive(Debug, Clone, Copy, PartialEq, Eq, Structural)]
pub enum RectEdge {
    Top,
    Bottom,
    Left,
    Right,
}

/// The current position of a drag target.
#[derive(Debug, Clone, Copy)]
pub struct TargetInfo {
    pub current_val: (i32, i32),
}

/// The smallest gap kept between opposite sides of a rectangle.
pub const MIN_GAP: i32 = 10;

/// The text a key has: from the descript, else from the defaults, else `0`.
pub open spec fn lookup(parsed: Map<Seq<char>, Seq<char>>, defaults: Map<Seq<char>, Seq<char>>, key: Seq<char>) -> Seq<char> {
    if parsed.contains_key(key) {
        parsed[key]
    } else if defaults.contains_key(key) {
        defaults[key]
    } else {
        "0"@
    }
}

/// Keys measured along the x axis.
pub open spec fn is_x_axis(key: Seq<char>) -> bool {
    ends_with(key, ".x"@) || ends_with(key, ".xr"@) || ends_with(key, ".left"@) || ends_with(key, ".right"@)
}

/// The image coordinate a key denotes (see `pos_value`), against the width
/// for x-axis keys and the height for the others.
pub open spec fn descript_val(
    key: Seq<char>,
    parsed: Map<Seq<char>, Seq<char>>,
    defaults: Map<Seq<char>, Seq<char>>,
    iw: i32,
    ih: i32,
) -> i32 {
    pos_value(
        lookup(parsed, defaults, key),
        if is_x_axis(key) {
            iw
        } else {
            ih
        },
    )
}

/// `s.parse::<i32>().unwrap_or(d)`.
pub open spec fn i32_or(s: Seq<char>, d: int) -> int {
    match parse_in_range(s, true, i32::MIN as int, i32::MAX as int) {
        Some(n) => n,
        None => d,
    }
}

/// The `i32` a key holds, or `d` where it is absent or no `i32`.
pub open spec fn key_i32_or(parsed: Map<Seq<char>, Seq<char>>, key: Seq<char>, d: int) -> int {
    if parsed.contains_key(key) {
        i32_or(parsed[key], d)
    } else {
        d
    }
}

/// The input box `(x, y, width, height)` that a descript gives, with the
/// defaults `10, 10, 100, 30`; `y` may count from the bottom.
pub open spec fn cb_values(parsed: Map<Seq<char>, Seq<char>>, ih: i32) -> (int, int, int, int) {
    (
        key_i32_or(parsed, "communicatebox.x"@, 10),
        pos_value(
            if parsed.contains_key("communicatebox.y"@) {
                parsed["communicatebox.y"@]
            } else {
                "10"@
            },
            ih,
        ) as int,
        key_i32_or(parsed, "communicatebox.width"@, 100),
        key_i32_or(parsed, "communicatebox.height"@, 30),
    )
}

/// `x` fits in an `i32`.
pub open spec fn fits(x: int) -> bool {
    i32::MIN <= x <= i32::MAX
}

/// `s` ends with `suffix`.
fn ends_with_str(s: &str, suffix: &str) -> (r: bool)
    ensures
        r == ends_with(s@, suffix@),
{
    let v = chars_of(s);
    let p = chars_of(suffix);
    if p.len() > v.len() {
        return false;
    }
    let start = v.len() - p.len();
    let r = starts_with_at(&v, start, v.len(), &p);
    assert(v@.subrange(start as int, v.len() as int).subrange(0, p.len() as int) =~= v@.subrange(
        start as int,
        v.len() as int,
    ));
    r
}

/// The text of `key` in `parsed`, else in `defaults`, else `0`.
fn lookup_exec<'a>(parsed: &'a StringHashMap<String>, defaults: &'a StringHashMap<String>, key: &str) -> (r: &'a str)
    ensures
        r@ == lookup(strs(parsed@), strs(defaults@), key@),
{
    proof {
        reveal_strlit("0");
    }
    match parsed.get(key) {
        Some(s) => s.as_str(),
        None => match defaults.get(key) {
            Some(s) => s.as_str(),
            None => "0",
        },
    }
}

/// The image coordinate a key denotes (see `descript_val`).
pub fn get_descript_val(
    key: &str,
    parsed: &StringHashMap<String>,
    defaults: &StringHashMap<String>,
    iw: i32,
    ih: i32,
) -> (r: i32)
    ensures
        r == descript_val(key@, strs(parsed@), strs(defaults@), iw, ih),
{
    let raw = lookup_exec(parsed, defaults, key);
    let is_x = ends_with_str(key, ".x") || ends_with_str(key, ".xr") || ends_with_str(key, ".left")
        || ends_with_str(key, ".right");
    pos_str(raw, if is_x { iw } else { ih })
}

/// The `i32` that `key` holds, or `d`.
fn key_i32(parsed: &StringHashMap<String>, key: &str, d: i32) -> (r: i32)
    ensures
        r == key_i32_or(strs(parsed@), key@, d as int),
{
    match parsed.get(key) {
        Some(s) => match parse_i32(s.as_str()) {
            Some(n) => n,
            None => d,
        },
        None => d,
    }
}

/// The input box values (see `cb_values`).
fn cb_exec(parsed: &StringHashMap<String>, ih: i32) -> (r: (i32, i32, i32, i32))
    ensures
        (r.0 as int, r.1 as int, r.2 as int, r.3 as int) == cb_values(strs(parsed@), ih),
{
    proof {
        reveal_strlit("10");
    }
    let x = key_i32(parsed, "communicatebox.x", 10);
    let y = match parsed.get("communicatebox.y") {
        Some(s) => pos_str(s.as_str(), ih),
        None => pos_str("10", ih),
    };
    let w = key_i32(parsed, "communicatebox.width", 100);
    let h = key_i32(parsed, "communicatebox.height", 30);
    (x, y, w, h)
}

/// The current image coordinate of one side of the text area.
pub open spec fn edge_value(
    edge: RectEdge,
    parsed: Map<Seq<char>, Seq<char>>,
    defaults: Map<Seq<char>, Seq<char>>,
    iw: i32,
    ih: i32,
) -> (i32, i32) {
    match edge {
        RectEdge::Top => (0, descript_val("validrect.top"@, parsed, defaults, iw, ih)),
        RectEdge::Bottom => (0, descript_val("validrect.bottom"@, parsed, defaults, iw, ih)),
        RectEdge::Left => (descript_val("validrect.left"@, parsed, defaults, iw, ih), 0),
        RectEdge::Right => (descript_val("validrect.right"@, parsed, defaults, iw, ih), 0),
    }
}

/// The current image coordinate of one side of the text area (`validrect`).
pub fn edge_current_val(
    edge: RectEdge,
    parsed: &StringHashMap<String>,
    defaults: &StringHashMap<String>,
    iw: i32,
    ih: i32,
) -> (r: (i32, i32))
    ensures
        r == edge_value(edge, strs(parsed@), strs(defaults@), iw, ih),
{
    match edge {
        RectEdge::Top => (0, get_descript_val("validrect.top", parsed, defaults, iw, ih)),
        RectEdge::Bottom => (0, get_descript_val("validrect.bottom", parsed, defaults, iw, ih)),
        RectEdge::Left => (get_descript_val("validrect.left", parsed, defaults, iw, ih), 0),
        RectEdge::Right => (get_descript_val("validrect.right", parsed, defaults, iw, ih), 0),
    }
}

/// The current coordinate of one side of the input box.
pub open spec fn cb_edge_value(edge: RectEdge, parsed: Map<Seq<char>, Seq<char>>, ih: i32) -> (int, int) {
    let (x, y, w, h) = cb_values(parsed, ih);
    match edge {
        RectEdge::Left => (x, 0),
        RectEdge::Top => (0, y),
        RectEdge::Right => (x + w, 0),
        RectEdge::Bottom => (0, y + h),
    }
}

/// The current coordinate of one side of the input box (`communicatebox`).
/// The right and bottom sides are `x + width` and `y + height`, which must
/// fit in an `i32`.
pub fn cb_edge_current_val(edge: RectEdge, parsed: &StringHashMap<String>, ih: i32) -> (r: (i32, i32))
    requires
        fits(cb_edge_value(edge, strs(parsed@), ih).0),
        fits(cb_edge_value(edge, strs(parsed@), ih).1),
    ensures
        (r.0 as int, r.1 as int) == cb_edge_value(edge, strs(parsed@), ih),
{
    let (x, y, w, h) = cb_exec(parsed, ih);
    match edge {
        RectEdge::Left => (x, 0),
        RectEdge::Top => (0, y),
        RectEdge::Right => (x + w, 0),
        RectEdge::Bottom => (0, y + h),
    }
}

/// The x and y keys of a freely dragged part.
pub open spec fn xy_keys(target: DragEditTarget) -> (Seq<char>, Seq<char>) {
    match target {
        DragEditTarget::Arrow0 => ("arrow0.x"@, "arrow0.y"@),
        DragEditTarget::Arrow1 => ("arrow1.x"@, "arrow1.y"@),
        DragEditTarget::ClickWait => ("clickwaitmarker.x"@, "clickwaitmarker.y"@),
        DragEditTarget::SstpMarker => ("sstpmarker.x"@, "sstpmarker.y"@),
        DragEditTarget::SstpMessage => ("sstpmessage.x"@, "sstpmessage.y"@),
        _ => ("onlinemarker.x"@, "onlinemarker.y"@),
    }
}

/// A part dragged freely in both axes and stored under its own x/y keys.
pub open spec fn is_xy_part(target: DragEditTarget) -> bool {
    match target {
        DragEditTarget::Arrow0 | DragEditTarget::Arrow1 | DragEditTarget::ClickWait
        | DragEditTarget::SstpMarker | DragEditTarget::SstpMessage | DragEditTarget::OnlineMarker => true,
        _ => false,
    }
}

/// The counter's right-edge offset `number.xr` (default `-20`).
pub open spec fn counter_xr(parsed: Map<Seq<char>, Seq<char>>) -> int {
    key_i32_or(parsed, "number.xr"@, -20)
}

/// The position a drag of `target` starts from; the rectangles report
/// `(0, 0)` (their sides are read one by one).
pub open spec fn target_value(
    target: DragEditTarget,
    parsed: Map<Seq<char>, Seq<char>>,
    defaults: Map<Seq<char>, Seq<char>>,
    iw: i32,
    ih: i32,
) -> (int, int) {
    if is_xy_part(target) {
        (
            descript_val(xy_keys(target).0, parsed, defaults, iw, ih) as int,
            descript_val(xy_keys(target).1, parsed, defaults, iw, ih) as int,
        )
    } else {
        match target {
            DragEditTarget::Counter => (
                iw + counter_xr(parsed),
                descript_val("number.y"@, parsed, defaults, iw, ih) as int,
            ),
            DragEditTarget::WordWrap => (descript_val("wordwrappoint.x"@, parsed, defaults, iw, ih) as int, 0),
            _ => (0, 0),
        }
    }
}

/// The position a drag of `target` starts from (see `target_value`); for
/// the counter `iw + number.xr` must fit in an `i32`.
pub fn target_info(
    target: DragEditTarget,
    parsed: &StringHashMap<String>,
    defaults: &StringHashMap<String>,
    iw: i32,
    ih: i32,
) -> (r: TargetInfo)
    requires
        target == DragEditTarget::Counter ==> fits(iw + counter_xr(strs(parsed@))),
    ensures
        (r.current_val.0 as int, r.current_val.1 as int) == target_value(target, strs(parsed@), strs(defaults@), iw, ih),
{
    let val = match target {
        DragEditTarget::Arrow0 => (
            get_descript_val("arrow0.x", parsed, defaults, iw, ih),
            get_descript_val("arrow0.y", parsed, defaults, iw, ih),
        ),
        DragEditTarget::Arrow1 => (
            get_descript_val("arrow1.x", parsed, defaults, iw, ih),
            get_descript_val("arrow1.y", parsed, defaults, iw, ih),
        ),
        DragEditTarget::ClickWait => (
            get_descript_val("clickwaitmarker.x", parsed, defaults, iw, ih),
            get_descript_val("clickwaitmarker.y", parsed, defaults, iw, ih),
        ),
        DragEditTarget::SstpMarker => (
            get_descript_val("sstpmarker.x", parsed, defaults, iw, ih),
            get_descript_val("sstpmarker.y", parsed, defaults, iw, ih),
        ),
        DragEditTarget::SstpMessage => (
            get_descript_val("sstpmessage.x", parsed, defaults, iw, ih),
            get_descript_val("sstpmessage.y", parsed, defaults, iw, ih),
        ),
        DragEditTarget::OnlineMarker => (
            get_descript_val("onlinemarker.x", parsed, defaults, iw, ih),
            get_descript_val("onlinemarker.y", parsed, defaults, iw, ih),
        ),
        DragEditTarget::Counter => {
            let xr = key_i32(parsed, "number.xr", -20);
            (iw + xr, get_descript_val("number.y", parsed, defaults, iw, ih))
        },
        DragEditTarget::ValidRect | DragEditTarget::CommunicateBox => (0, 0),
        DragEditTarget::WordWrap => (get_descript_val("wordwrappoint.x", parsed, defaults, iw, ih), 0),
    };
    TargetInfo { current_val: val }
}

/// The position after moving the start position by `(dx, dy)`: parts move
/// freely, the wrap point only along x, and a rectangle side along its
/// own axis (not at all without a side).
pub open spec fn moved_value(
    target: DragEditTarget,
    edge: Option<RectEdge>,
    start: (i32, i32),
    dx: i32,
    dy: i32,
) -> (int, int) {
    match target {
        DragEditTarget::WordWrap => (start.0 + dx, start.1 as int),
        DragEditTarget::ValidRect | DragEditTarget::CommunicateBox => match edge {
            Some(RectEdge::Left) | Some(RectEdge::Right) => (start.0 + dx, start.1 as int),
            Some(RectEdge::Top) | Some(RectEdge::Bottom) => (start.0 as int, start.1 + dy),
            None => (start.0 as int, start.1 as int),
        },
        _ => (start.0 + dx, start.1 + dy),
    }
}

/// The position after a drag by `(dx, dy)` (see `moved_value`); the sums
/// must fit in an `i32`.
pub fn compute_new_val_with_edge(
    target: DragEditTarget,
    edge: Option<RectEdge>,
    start: (i32, i32),
    dx: i32,
    dy: i32,
) -> (r: (i32, i32))
    requires
        fits(moved_value(target, edge, start, dx, dy).0),
        fits(moved_value(target, edge, start, dx, dy).1),
    ensures
        (r.0 as int, r.1 as int) == moved_value(target, edge, start, dx, dy),
{
    match target {
        DragEditTarget::WordWrap => (start.0 + dx, start.1),
        DragEditTarget::ValidRect | DragEditTarget::CommunicateBox => match edge {
            Some(RectEdge::Left) | Some(RectEdge::Right) => (start.0 + dx, start.1),
            Some(RectEdge::Top) | Some(RectEdge::Bottom) => (start.0, start.1 + dy),
            None => start,
        },
        _ => (start.0 + dx, start.1 + dy),
    }
}

/// `v` brought into `[lo, hi]`.
pub open spec fn clamp_to(v: int, lo: int, hi: int) -> int {
    if v < lo {
        lo
    } else if v > hi {
        hi
    } else {
        v
    }
}

/// `lo`, or `hi` where `lo` lies above it: the lower end of a range that
/// must stay within `hi`.
pub open spec fn low_end(lo: int, hi: int) -> int {
    if lo <= hi {
        lo
    } else {
        hi
    }
}

/// `x`, or 0 where it is negative.
pub open spec fn max0(x: int) -> int {
    if x > 0 {
        x
    } else {
        0
    }
}

/// `x`, or 1 where it is smaller.
pub open spec fn max1(x: int) -> int {
    if x > 1 {
        x
    } else {
        1
    }
}

/// `i32::clamp`.
fn clamp_i32(v: i32, lo: i32, hi: i32) -> (r: i32)
    requires
        lo <= hi,
    ensures
        r == clamp_to(v as int, lo as int, hi as int),
{
    if v < lo {
        lo
    } else if v > hi {
        hi
    } else {
        v
    }
}

/// The size of a part image, by file name; `(0, 0)` where there is none.
/// A size is taken as an `i32` (`u32 as i32`).
pub open spec fn part_size(parts: Map<Seq<char>, (u32, u32)>, name: Seq<char>) -> (int, int) {
    if parts.contains_key(name) {
        (parts[name].0 as i32 as int, parts[name].1 as i32 as int)
    } else {
        (0, 0)
    }
}

/// The part image that a marker target draws, if any: its size.
pub open spec fn target_part(target: DragEditTarget, parts: Map<Seq<char>, (u32, u32)>) -> (int, int) {
    match target {
        DragEditTarget::Arrow0 => part_size(parts, "arrow0.png"@),
        DragEditTarget::Arrow1 => part_size(parts, "arrow1.png"@),
        DragEditTarget::ClickWait => part_size(parts, "clickwait.png"@),
        DragEditTarget::SstpMarker => if parts.contains_key("sstp_new.png"@) {
            part_size(parts, "sstp_new.png"@)
        } else {
            part_size(parts, "sstp.png"@)
        },
        _ => part_size(parts, "online0.png"@),
    }
}

/// Markers drawn with a part image, kept wholly inside the balloon.
pub open spec fn is_marker(target: DragEditTarget) -> bool {
    match target {
        DragEditTarget::Arrow0 | DragEditTarget::Arrow1 | DragEditTarget::ClickWait
        | DragEditTarget::SstpMarker | DragEditTarget::OnlineMarker => true,
        _ => false,
    }
}

/// The sides `(left, top, right, bottom)` of the text area.
pub open spec fn valid_rect(
    parsed: Map<Seq<char>, Seq<char>>,
    defaults: Map<Seq<char>, Seq<char>>,
    iw: i32,
    ih: i32,
) -> (int, int, int, int) {
    (
        descript_val("validrect.left"@, parsed, defaults, iw, ih) as int,
        descript_val("validrect.top"@, parsed, defaults, iw, ih) as int,
        descript_val("validrect.right"@, parsed, defaults, iw, ih) as int,
        descript_val("validrect.bottom"@, parsed, defaults, iw, ih) as int,
    )
}

/// When `clamp_val` can work without an overflow and with each range
/// non-empty: the sizes it clamps into are not negative, and the sums it
/// forms fit in an `i32`.
pub open spec fn clamp_ok(
    target: DragEditTarget,
    edge: Option<RectEdge>,
    text: Seq<char>,
    iw: i32,
    ih: i32,
    parts: Map<Seq<char>, (u32, u32)>,
    defaults: Map<Seq<char>, Seq<char>>,
) -> bool {
    let m = descript_map(text);
    let (pw, ph) = target_part(target, parts);
    let (l, t, r, b) = valid_rect(m, defaults, iw, ih);
    let (x, y, w, h) = cb_values(m, ih);
    match target {
        DragEditTarget::SstpMessage | DragEditTarget::Counter => iw >= 0 && ih >= 0,
        DragEditTarget::WordWrap => iw >= 0,
        DragEditTarget::ValidRect => match edge {
            Some(RectEdge::Left) => fits(r - MIN_GAP),
            Some(RectEdge::Right) => fits(l + MIN_GAP),
            Some(RectEdge::Top) => fits(b - MIN_GAP),
            Some(RectEdge::Bottom) => fits(t + MIN_GAP),
            None => true,
        },
        DragEditTarget::CommunicateBox => match edge {
            Some(RectEdge::Left) => fits(x + w) && fits(x + w - MIN_GAP),
            Some(RectEdge::Right) => fits(x + MIN_GAP),
            Some(RectEdge::Top) => fits(y + h) && fits(y + h - MIN_GAP),
            Some(RectEdge::Bottom) => fits(y + MIN_GAP),
            None => true,
        },
        _ => fits(iw - pw) && fits(ih - ph),
    }
}

/// A dropped position brought back inside the balloon: a marker so that its
/// image lies wholly inside, the SSTP message and the counter by their
/// top-left corner, the wrap point along x; a rectangle side within the
/// balloon and at least `MIN_GAP` from the opposite side, or, for a right
/// or bottom side where the balloon leaves no such room, at the balloon's edge.
pub open spec fn clamped_value(
    target: DragEditTarget,
    val: (i32, i32),
    edge: Option<RectEdge>,
    text: Seq<char>,
    iw: i32,
    ih: i32,
    parts: Map<Seq<char>, (u32, u32)>,
    defaults: Map<Seq<char>, Seq<char>>,
) -> (int, int) {
    let m = descript_map(text);
    let (vx, vy) = (val.0 as int, val.1 as int);
    let (pw, ph) = target_part(target, parts);
    let (l, t, r, b) = valid_rect(m, defaults, iw, ih);
    let (x, y, w, h) = cb_values(m, ih);
    match target {
        DragEditTarget::SstpMessage | DragEditTarget::Counter => (clamp_to(vx, 0, iw as int), clamp_to(vy, 0, ih as int)),
        DragEditTarget::WordWrap => (clamp_to(vx, 0, iw as int), vy),
        DragEditTarget::ValidRect => match edge {
            Some(RectEdge::Left) => (clamp_to(vx, 0, max0(r - MIN_GAP)), vy),
            Some(RectEdge::Right) => (clamp_to(vx, low_end(l + MIN_GAP, iw as int), iw as int), vy),
            Some(RectEdge::Top) => (vx, clamp_to(vy, 0, max0(b - MIN_GAP))),
            Some(RectEdge::Bottom) => (vx, clamp_to(vy, low_end(t + MIN_GAP, ih as int), ih as int)),
            None => (vx, vy),
        },
        DragEditTarget::CommunicateBox => match edge {
            Some(RectEdge::Left) => (clamp_to(vx, 0, max0(x + w - MIN_GAP)), vy),
            Some(RectEdge::Right) => (clamp_to(vx, low_end(x + MIN_GAP, iw as int), iw as int), vy),
            Some(RectEdge::Top) => (vx, clamp_to(vy, 0, max0(y + h - MIN_GAP))),
            Some(RectEdge::Bottom) => (vx, clamp_to(vy, low_end(y + MIN_GAP, ih as int), ih as int)),
            None => (vx, vy),
        },
        _ => (clamp_to(vx, 0, max0(iw - pw)), clamp_to(vy, 0, max0(ih - ph))),
    }
}

/// See `low_end`.
fn low_end_i32(lo: i32, hi: i32) -> (r: i32)
    ensures
        r == low_end(lo as int, hi as int),
        r <= hi,
{
    if lo <= hi {
        lo
    } else {
        hi
    }
}

/// The size of a named part image as `i32`s, `(0, 0)` where there is none.
fn part_size_exec(parts: &StringHashMap<(u32, u32)>, name: &str) -> (r: (i32, i32))
    ensures
        (r.0 as int, r.1 as int) == part_size(parts@, name@),
{
    match parts.get(name) {
        Some(wh) => (wh.0 as i32, wh.1 as i32),
        None => (0, 0),
    }
}

/// The position a drag ends at, brought back inside the balloon (see
/// `clamped_value`). `parts` gives the size of each part image by file
/// name; `defaults` the value of each key that the descript does not set.
pub fn clamp_val(
    target: DragEditTarget,
    val: (i32, i32),
    edge: Option<RectEdge>,
    descript_text: &str,
    iw: i32,
    ih: i32,
    parts: &StringHashMap<(u32, u32)>,
    defaults: &StringHashMap<String>,
) -> (r: (i32, i32))
    requires
        clamp_ok(target, edge, descript_text@, iw, ih, parts@, strs(defaults@)),
    ensures
        (r.0 as int, r.1 as int) == clamped_value(target, val, edge, descript_text@, iw, ih, parts@, strs(defaults@)),
{
    let (vx, vy) = val;
    let (pw, ph) = match target {
        DragEditTarget::Arrow0 => part_size_exec(parts, "arrow0.png"),
        DragEditTarget::Arrow1 => part_size_exec(parts, "arrow1.png"),
        DragEditTarget::ClickWait => part_size_exec(parts, "clickwait.png"),
        DragEditTarget::SstpMarker => if parts.contains_key("sstp_new.png") {
            part_size_exec(parts, "sstp_new.png")
        } else {
            part_size_exec(parts, "sstp.png")
        },
        _ => part_size_exec(parts, "online0.png"),
    };
    match target {
        DragEditTarget::SstpMessage | DragEditTarget::Counter => (clamp_i32(vx, 0, iw), clamp_i32(vy, 0, ih)),
        DragEditTarget::WordWrap => (clamp_i32(vx, 0, iw), vy),
        DragEditTarget::ValidRect => {
            let parsed = parse_descript(descript_text);
            proof {
                lemma_models_strs(parsed@, descript_map(descript_text@));
            }
            match edge {
                Some(RectEdge::Left) => {
                    let right = get_descript_val("validrect.right", &parsed, defaults, iw, ih);
                    let hi = if right - MIN_GAP > 0 { right - MIN_GAP } else { 0 };
                    (clamp_i32(vx, 0, hi), vy)
                },
                Some(RectEdge::Right) => {
                    let left = get_descript_val("validrect.left", &parsed, defaults, iw, ih);
                    (clamp_i32(vx, low_end_i32(left + MIN_GAP, iw), iw), vy)
                },
                Some(RectEdge::Top) => {
                    let bottom = get_descript_val("validrect.bottom", &parsed, defaults, iw, ih);
                    let hi = if bottom - MIN_GAP > 0 { bottom - MIN_GAP } else { 0 };
                    (vx, clamp_i32(vy, 0, hi))
                },
                Some(RectEdge::Bottom) => {
                    let top = get_descript_val("validrect.top", &parsed, defaults, iw, ih);
                    (vx, clamp_i32(vy, low_end_i32(top + MIN_GAP, ih), ih))
                },
                None => val,
            }
        },
        DragEditTarget::CommunicateBox => {
            let parsed = parse_descript(descript_text);
            proof {
                lemma_models_strs(parsed@, descript_map(descript_text@));
            }
            let (cx, cy, cw, ch) = cb_exec(&parsed, ih);
            match edge {
                Some(RectEdge::Left) => {
                    let right = cx + cw;
                    let hi = if right - MIN_GAP > 0 { right - MIN_GAP } else { 0 };
                    (clamp_i32(vx, 0, hi), vy)
                },
                Some(RectEdge::Right) => (clamp_i32(vx, low_end_i32(cx + MIN_GAP, iw), iw), vy),
                Some(RectEdge::Top) => {
                    let bottom = cy + ch;
                    let hi = if bottom - MIN_GAP > 0 { bottom - MIN_GAP } else { 0 };
                    (vx, clamp_i32(vy, 0, hi))
                },
                Some(RectEdge::Bottom) => (vx, clamp_i32(vy, low_end_i32(cy + MIN_GAP, ih), ih)),
                None => val,
            }
        },
        _ => {
            let hx = if iw - pw > 0 { iw - pw } else { 0 };
            let hy = if ih - ph > 0 { ih - ph } else { 0 };
            (clamp_i32(vx, 0, hx), clamp_i32(vy, 0, hy))
        },
    }
}

/// A coordinate as descript notation: counted from the far edge (`img -
/// size`, negative) where the value was written that way before.
pub open spec fn descript_coord(img: i32, size: i32, was_neg: bool) -> int {
    if was_neg {
        img - size
    } else {
        img as int
    }
}

/// The descript text of an x coordinate (see `descript_coord`); the
/// difference must fit in an `i32`.
pub fn to_descript_x(img_x: i32, iw: i32, was_neg: bool) -> (s: String)
    requires
        fits(descript_coord(img_x, iw, was_neg)),
    ensures
        s@ == int_numeral(descript_coord(img_x, iw, was_neg)),
{
    if was_neg {
        int_to_string((img_x - iw) as i64)
    } else {
        int_to_string(img_x as i64)
    }
}

/// The descript text of a y coordinate (see `descript_coord`).
pub fn to_descript_y(img_y: i32, ih: i32, was_neg: bool) -> (s: String)
    requires
        fits(descript_coord(img_y, ih, was_neg)),
    ensures
        s@ == int_numeral(descript_coord(img_y, ih, was_neg)),
{
    if was_neg {
        int_to_string((img_y - ih) as i64)
    } else {
        int_to_string(img_y as i64)
    }
}

/// Whether a key's own text (from the descript, else the defaults) is a
/// negative `i32` once trimmed.
pub open spec fn negative_raw(parsed: Map<Seq<char>, Seq<char>>, defaults: Map<Seq<char>, Seq<char>>, key: Seq<char>) -> bool {
    let s = if parsed.contains_key(key) {
        Some(parsed[key])
    } else if defaults.contains_key(key) {
        Some(defaults[key])
    } else {
        None
    };
    match s {
        Some(t) => match parse_in_range(trim(t), true, i32::MIN as int, i32::MAX as int) {
            Some(v) => v < 0,
            None => false,
        },
        None => false,
    }
}

/// For each axis of a drag target, whether its value was written counting
/// from the far edge; for a rectangle only the dragged side's axis counts,
/// and the input box never does.
pub open spec fn negatives(
    target: DragEditTarget,
    parsed: Map<Seq<char>, Seq<char>>,
    defaults: Map<Seq<char>, Seq<char>>,
    edge: Option<RectEdge>,
) -> (bool, bool) {
    if is_xy_part(target) {
        (negative_raw(parsed, defaults, xy_keys(target).0), negative_raw(parsed, defaults, xy_keys(target).1))
    } else {
        match target {
            DragEditTarget::Counter => (false, negative_raw(parsed, defaults, "number.y"@)),
            DragEditTarget::WordWrap => (negative_raw(parsed, defaults, "wordwrappoint.x"@), false),
            DragEditTarget::ValidRect => match edge {
                Some(RectEdge::Left) => (negative_raw(parsed, defaults, "validrect.left"@), false),
                Some(RectEdge::Right) => (negative_raw(parsed, defaults, "validrect.right"@), false),
                Some(RectEdge::Top) => (false, negative_raw(parsed, defaults, "validrect.top"@)),
                Some(RectEdge::Bottom) => (false, negative_raw(parsed, defaults, "validrect.bottom"@)),
                None => (false, false),
            },
            _ => (false, false),
        }
    }
}

/// Whether a key's text is a negative `i32` (see `negative_raw`).
fn negative_raw_exec(parsed: &StringHashMap<String>, defaults: &StringHashMap<String>, key: &str) -> (r: bool)
    ensures
        r == negative_raw(strs(parsed@), strs(defaults@), key@),
{
    let s = match parsed.get(key) {
        Some(s) => s,
        None => match defaults.get(key) {
            Some(s) => s,
            None => {
                return false;
            },
        },
    };
    let v = chars_of(s.as_str());
    let (a, b) = trim_bounds(&v, 0, v.len());
    assert(v@.subrange(0, v.len() as int) =~= v@);
    let t = string_of(&v, a, b);
    match parse_i32(t.as_str()) {
        Some(n) => n < 0,
        None => false,
    }
}

/// For each axis, whether the value was written counting from the far
/// edge (see `negatives`).
pub fn was_negative_in_descript(
    target: DragEditTarget,
    parsed: &StringHashMap<String>,
    defaults: &StringHashMap<String>,
    active_edge: Option<RectEdge>,
) -> (r: (bool, bool))
    ensures
        r == negatives(target, strs(parsed@), strs(defaults@), active_edge),
{
    match target {
        DragEditTarget::Arrow0 => (
            negative_raw_exec(parsed, defaults, "arrow0.x"),
            negative_raw_exec(parsed, defaults, "arrow0.y"),
        ),
        DragEditTarget::Arrow1 => (
            negative_raw_exec(parsed, defaults, "arrow1.x"),
            negative_raw_exec(parsed, defaults, "arrow1.y"),
        ),
        DragEditTarget::ClickWait => (
            negative_raw_exec(parsed, defaults, "clickwaitmarker.x"),
            negative_raw_exec(parsed, defaults, "clickwaitmarker.y"),
        ),
        DragEditTarget::SstpMarker => (
            negative_raw_exec(parsed, defaults, "sstpmarker.x"),
            negative_raw_exec(parsed, defaults, "sstpmarker.y"),
        ),
        DragEditTarget::SstpMessage => (
            negative_raw_exec(parsed, defaults, "sstpmessage.x"),
            negative_raw_exec(parsed, defaults, "sstpmessage.y"),
        ),
        DragEditTarget::OnlineMarker => (
            negative_raw_exec(parsed, defaults, "onlinemarker.x"),
            negative_raw_exec(parsed, defaults, "onlinemarker.y"),
        ),
        DragEditTarget::Counter => (false, negative_raw_exec(parsed, defaults, "number.y")),
        DragEditTarget::WordWrap => (negative_raw_exec(parsed, defaults, "wordwrappoint.x"), false),
        DragEditTarget::ValidRect => match active_edge {
            Some(RectEdge::Left) => (negative_raw_exec(parsed, defaults, "validrect.left"), false),
            Some(RectEdge::Right) => (negative_raw_exec(parsed, defaults, "validrect.right"), false),
            Some(RectEdge::Top) => (false, negative_raw_exec(parsed, defaults, "validrect.top")),
            Some(RectEdge::Bottom) => (false, negative_raw_exec(parsed, defaults, "validrect.bottom")),
            None => (false, false),
        },
        DragEditTarget::CommunicateBox => (false, false),
    }
}

/// When `write_val_to_descript` can work without an overflow: the
/// coordinates it writes, and the input box sums it forms, fit in an `i32`.
pub open spec fn write_ok(
    target: DragEditTarget,
    text: Seq<char>,
    val: (i32, i32),
    edge: Option<RectEdge>,
    neg: (bool, bool),
    iw: i32,
    ih: i32,
) -> bool {
    let (x, y, w, h) = cb_values(descript_map(text), ih);
    &&& fits(descript_coord(val.0, iw, neg.0))
    &&& fits(descript_coord(val.1, ih, neg.1))
    &&& target == DragEditTarget::Counter ==> fits(val.0 - iw)
    &&& target == DragEditTarget::CommunicateBox ==> match edge {
        Some(RectEdge::Left) => fits(x + w) && fits(x + w - val.0),
        Some(RectEdge::Top) => fits(y + h) && fits(y + h - val.1),
        Some(RectEdge::Right) => fits(val.0 - x),
        Some(RectEdge::Bottom) => fits(val.1 - y),
        None => true,
    }
}

/// The descript text after a drag of `target` ends at `val`: each key the
/// target owns is set (see `set_value_text`) to the new coordinate, in
/// the notation the key had. The counter's x is always `number.xr`,
/// counted from the right; moving a side of the input box keeps the
/// opposite side where it was (its size at least 1).
pub open spec fn written_text(
    target: DragEditTarget,
    t: Seq<char>,
    val: (i32, i32),
    edge: Option<RectEdge>,
    neg: (bool, bool),
    iw: i32,
    ih: i32,
) -> Seq<char> {
    let vx = int_numeral(descript_coord(val.0, iw, neg.0));
    let vy = int_numeral(descript_coord(val.1, ih, neg.1));
    if is_xy_part(target) {
        set_value_text(set_value_text(t, xy_keys(target).0, vx), xy_keys(target).1, vy)
    } else {
        match target {
            DragEditTarget::Counter => set_value_text(
                set_value_text(t, "number.xr"@, int_numeral(val.0 - iw)),
                "number.y"@,
                vy,
            ),
            DragEditTarget::WordWrap => set_value_text(t, "wordwrappoint.x"@, vx),
            DragEditTarget::ValidRect => match edge {
                Some(RectEdge::Top) => set_value_text(t, "validrect.top"@, vy),
                Some(RectEdge::Bottom) => set_value_text(t, "validrect.bottom"@, vy),
                Some(RectEdge::Left) => set_value_text(t, "validrect.left"@, vx),
                Some(RectEdge::Right) => set_value_text(t, "validrect.right"@, vx),
                None => t,
            },
            _ => {
                let (x, y, w, h) = cb_values(descript_map(t), ih);
                match edge {
                    Some(RectEdge::Left) => set_value_text(
                        set_value_text(t, "communicatebox.x"@, int_numeral(val.0 as int)),
                        "communicatebox.width"@,
                        int_numeral(max1(x + w - val.0)),
                    ),
                    Some(RectEdge::Top) => set_value_text(
                        set_value_text(t, "communicatebox.y"@, int_numeral(val.1 as int)),
                        "communicatebox.height"@,
                        int_numeral(max1(y + h - val.1)),
                    ),
                    Some(RectEdge::Right) => set_value_text(
                        t,
                        "communicatebox.width"@,
                        int_numeral(max1(val.0 - x)),
                    ),
                    Some(RectEdge::Bottom) => set_value_text(
                        t,
                        "communicatebox.height"@,
                        int_numeral(max1(val.1 - y)),
                    ),
                    None => t,
                }
            },
        }
    }
}

/// Sets two keys in turn.
fn set_two(text: &str, k1: &str, v1: &str, k2: &str, v2: &str) -> (r: String)
    ensures
        r@ == set_value_text(set_value_text(text@, k1@, v1@), k2@, v2@),
{
    let t = set_descript_value(text, k1, v1);
    set_descript_value(t.as_str(), k2, v2)
}

/// `x`, or 1 where smaller.
fn max1_i32(x: i32) -> (r: i32)
    ensures
        r as int == max1(x as int),
{
    if x > 1 {
        x
    } else {
        1
    }
}

/// Writes the position a drag ended at into the descript text (see
/// `written_text`).
pub fn write_val_to_descript(
    target: DragEditTarget,
    descript_text: &str,
    val: (i32, i32),
    edge: Option<RectEdge>,
    was_negative: (bool, bool),
    iw: i32,
    ih: i32,
) -> (r: String)
    requires
        write_ok(target, descript_text@, val, edge, was_negative, iw, ih),
    ensures
        r@ == written_text(target, descript_text@, val, edge, was_negative, iw, ih),
{
    let (neg_x, neg_y) = was_negative;
    let vx = to_descript_x(val.0, iw, neg_x);
    let vy = to_descript_y(val.1, ih, neg_y);
    match target {
        DragEditTarget::Arrow0 => set_two(descript_text, "arrow0.x", vx.as_str(), "arrow0.y", vy.as_str()),
        DragEditTarget::Arrow1 => set_two(descript_text, "arrow1.x", vx.as_str(), "arrow1.y", vy.as_str()),
        DragEditTarget::ClickWait => set_two(
            descript_text,
            "clickwaitmarker.x",
            vx.as_str(),
            "clickwaitmarker.y",
            vy.as_str(),
        ),
        DragEditTarget::SstpMarker => set_two(
            descript_text,
            "sstpmarker.x",
            vx.as_str(),
            "sstpmarker.y",
            vy.as_str(),
        ),
        DragEditTarget::SstpMessage => set_two(
            descript_text,
            "sstpmessage.x",
            vx.as_str(),
            "sstpmessage.y",
            vy.as_str(),
        ),
        DragEditTarget::OnlineMarker => set_two(
            descript_text,
            "onlinemarker.x",
            vx.as_str(),
            "onlinemarker.y",
            vy.as_str(),
        ),
        DragEditTarget::Counter => {
            let xr = int_to_string((val.0 - iw) as i64);
            set_two(descript_text, "number.xr", xr.as_str(), "number.y", vy.as_str())
        },
        DragEditTarget::WordWrap => set_descript_value(descript_text, "wordwrappoint.x", vx.as_str()),
        DragEditTarget::ValidRect => match edge {
            Some(RectEdge::Top) => set_descript_value(descript_text, "validrect.top", vy.as_str()),
            Some(RectEdge::Bottom) => set_descript_value(descript_text, "validrect.bottom", vy.as_str()),
            Some(RectEdge::Left) => set_descript_value(descript_text, "validrect.left", vx.as_str()),
            Some(RectEdge::Right) => set_descript_value(descript_text, "validrect.right", vx.as_str()),
            None => String::from_str(descript_text),
        },
        DragEditTarget::CommunicateBox => {
            let p = parse_descript(descript_text);
            proof {
                lemma_models_strs(p@, descript_map(descript_text@));
            }
            let (cx, cy, cw, ch) = cb_exec(&p, ih);
            match edge {
                Some(RectEdge::Left) => {
                    let new_w = max1_i32(cx + cw - val.0);
                    let xs = int_to_string(val.0 as i64);
                    let ws = int_to_string(new_w as i64);
                    set_two(descript_text, "communicatebox.x", xs.as_str(), "communicatebox.width", ws.as_str())
                },
                Some(RectEdge::Top) => {
                    let new_h = max1_i32(cy + ch - val.1);
                    let ys = int_to_string(val.1 as i64);
                    let hs = int_to_string(new_h as i64);
                    set_two(descript_text, "communicatebox.y", ys.as_str(), "communicatebox.height", hs.as_str())
                },
                Some(RectEdge::Right) => {
                    let new_w = max1_i32(val.0 - cx);
                    let ws = int_to_string(new_w as i64);
                    set_descript_value(descript_text, "communicatebox.width", ws.as_str())
                },
                Some(RectEdge::Bottom) => {
                    let new_h = max1_i32(val.1 - cy);
                    let hs = int_to_string(new_h as i64);
                    set_descript_value(descript_text, "communicatebox.height", hs.as_str())
                },
                None => String::from_str(descript_text),
            }
        },
    }
}

/// Writing a dragged coordinate in the notation it had and reading it
/// back gives the coordinate again, wherever that notation can express it:
/// counted from the far edge for a point before that edge, from the near
/// edge for a point not left of (or above) it.
pub proof fn law_coordinate_round_trip(img: i32, size: i32, was_neg: bool)
    requires
        fits(descript_coord(img, size, was_neg)),
        if was_neg {
            img < size
        } else {
            img >= 0
        },
    ensures
        pos_value(int_numeral(descript_coord(img, size, was_neg)), size) == img,
{
    let c = descript_coord(img, size, was_neg);
    lemma_parse_numeral(c, true, i32::MIN as int, i32::MAX as int);
}

/// The x and y keys of a freely dragged part: each fit to be set, two
/// different keys, the first measured along x and the second along y.
proof fn lemma_xy_keys(target: DragEditTarget)
    requires
        is_xy_part(target),
    ensures
        clean_key(xy_keys(target).0),
        clean_key(xy_keys(target).1),
        xy_keys(target).0 != xy_keys(target).1,
        is_x_axis(xy_keys(target).0),
        !is_x_axis(xy_keys(target).1),
{
    reveal_strlit("arrow0.x");
    reveal_strlit("arrow0.y");
    reveal_strlit("arrow1.x");
    reveal_strlit("arrow1.y");
    reveal_strlit("clickwaitmarker.x");
    reveal_strlit("clickwaitmarker.y");
    reveal_strlit("sstpmarker.x");
    reveal_strlit("sstpmarker.y");
    reveal_strlit("sstpmessage.x");
    reveal_strlit("sstpmessage.y");
    reveal_strlit("onlinemarker.x");
    reveal_strlit("onlinemarker.y");
    reveal_strlit(".x");
    reveal_strlit(".xr");
    reveal_strlit(".left");
    reveal_strlit(".right");
    let (kx, ky) = xy_keys(target);
    lemma_plain_word(kx);
    lemma_plain_word(ky);
    assert(kx.last() == 'x' && ky.last() == 'y');
    assert(kx.subrange(kx.len() - 2, kx.len() as int) =~= ".x"@);
    assert(!ends_with(ky, ".x"@)) by {
        if ends_with(ky, ".x"@) {
            assert(ky.subrange(ky.len() - 2, ky.len() as int)[1] == ky.last());
        }
    }
    assert(!ends_with(ky, ".xr"@)) by {
        if ends_with(ky, ".xr"@) {
            assert(ky.subrange(ky.len() - 3, ky.len() as int)[2] == ky.last());
        }
    }
    assert(!ends_with(ky, ".left"@)) by {
        if ends_with(ky, ".left"@) {
            assert(ky.subrange(ky.len() - 5, ky.len() as int)[4] == ky.last());
        }
    }
    assert(!ends_with(ky, ".right"@)) by {
        if ends_with(ky, ".right"@) {
            assert(ky.subrange(ky.len() - 6, ky.len() as int)[5] == ky.last());
        }
    }
}

/// A coordinate written in the notation `neg` gives (see `descript_coord`)
/// reads back as the coordinate, and its notation as `neg`.
proof fn lemma_coord_read_back(v: i32, size: i32, neg: bool)
    requires
        fits(descript_coord(v, size, neg)),
        neg ==> v < size,
        !neg ==> v >= 0,
    ensures
        pos_value(int_numeral(descript_coord(v, size, neg)), size) == v,
        trim(int_numeral(descript_coord(v, size, neg))) == int_numeral(descript_coord(v, size, neg)),
        (parse_in_range(int_numeral(descript_coord(v, size, neg)), true, i32::MIN as int, i32::MAX as int)->0 < 0)
            == neg,
        parse_in_range(int_numeral(descript_coord(v, size, neg)), true, i32::MIN as int, i32::MAX as int) is Some,
{
    let c = descript_coord(v, size, neg);
    lemma_parse_numeral(c, true, i32::MIN as int, i32::MAX as int);
    lemma_numeral_clean(c);
}

/// Dragging a part and writing where it ended, then reading the text back:
/// each of its two keys gives the position it was dragged to, and keeps the
/// notation (near or far edge) it was written in.
///
/// This holds for a part dragged in both axes, where each key is written
/// only as `key,…` at the start of a line, and where the position can be
/// written in that notation: at or beyond the near edge for one, before
/// the far edge for the other (a position on the far edge counted from it
/// would be `0`, which reads as the near edge).
pub proof fn law_drag_write_read_back(
    target: DragEditTarget,
    t: Seq<char>,
    val: (i32, i32),
    edge: Option<RectEdge>,
    neg: (bool, bool),
    iw: i32,
    ih: i32,
    defaults: Map<Seq<char>, Seq<char>>,
)
    requires
        is_xy_part(target),
        write_ok(target, t, val, edge, neg, iw, ih),
        neg.0 ==> val.0 < iw,
        !neg.0 ==> val.0 >= 0,
        neg.1 ==> val.1 < ih,
        !neg.1 ==> val.1 >= 0,
        regular_for(split_lines(t), xy_keys(target).0),
        regular_for(split_lines(t), xy_keys(target).1),
    ensures
        ({
            let m = descript_map(written_text(target, t, val, edge, neg, iw, ih));
            &&& descript_val(xy_keys(target).0, m, defaults, iw, ih) == val.0
            &&& descript_val(xy_keys(target).1, m, defaults, iw, ih) == val.1
            &&& negative_raw(m, defaults, xy_keys(target).0) == neg.0
            &&& negative_raw(m, defaults, xy_keys(target).1) == neg.1
        }),
{
    let (kx, ky) = xy_keys(target);
    let vx = int_numeral(descript_coord(val.0, iw, neg.0));
    let vy = int_numeral(descript_coord(val.1, ih, neg.1));
    lemma_xy_keys(target);
    lemma_numeral_clean(descript_coord(val.0, iw, neg.0));
    lemma_numeral_clean(descript_coord(val.1, ih, neg.1));
    lemma_coord_read_back(val.0, iw, neg.0);
    lemma_coord_read_back(val.1, ih, neg.1);
    let t1 = set_value_text(t, kx, vx);
    law_set_then_read(t, kx, vx);
    law_set_keeps_regular(t, kx, vx, ky);
    law_set_then_read(t1, ky, vy);
    lemma_clean_trim_end(vx);
    law_set_keeps_clean_values(t1, ky, vy, kx);
    let m = descript_map(written_text(target, t, val, edge, neg, iw, ih));
    assert(m.contains_key(kx) && m.contains_key(ky) && m[kx] == vx && m[ky] == vy);
}

} // verus!
