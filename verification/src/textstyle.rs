//! How each line of the preview's sample text is styled: its colour, the
//! square and underline of selectable text, their pen and brush colours,
//! and the shadow, as `descript.txt` sets them.
use vstd::prelude::*;
use vstd::hash_map::StringHashMap;
use crate::color::Rgb;
use crate::descript::{none_word, strs};
use crate::fonts::{color_of, get_color};
use crate::inputbox::color_or;
use crate::raster::{Image, Pixel};
use crate::rows::{find_sub, find_sub_in};
use crate::text::{chars_of, push_str, str_lowercase, to_lowercase, trim, trim_bounds};
use crate::descript::str_eq;

verus! {

/// How a group of selectable text is decorated, as its `blendmethod` and
/// `font.color.r` keys say.
#[derive(Debug, Clone, Copy, PartialEq, Eq, Structural)]
pub enum DecoMode {
    /// No decoration: drawn as normal text.
    Plain,
    /// `blendmethod` unset or `none`, a font colour set: the font colour
    /// also serves as pen and brush.
    Simple,
    /// Another `blendmethod`: pen and brush colours of their own.
    RasterOp,
}

/// A text shadow: its colour, and whether it outlines the text (else it
/// is offset).
#[derive(Debug, Clone, Copy, PartialEq, Eq, Structural)]
pub struct Shadow {
    pub color: Rgb,
    pub outline: bool,
}

/// The style of one line of sample text.
#[derive(Debug, Clone, Copy, PartialEq, Eq, Structural)]
pub struct LineStyle {
    pub text: Rgb,
    /// A filled square behind the text.
    pub square: bool,
    /// A line under the text.
    pub underline: bool,
    pub pen: Rgb,
    pub brush: Rgb,
    pub shadow: Option<Shadow>,
}

/// The value of `key`, or `d` where it is unset.
pub open spec fn text_or(m: Map<Seq<char>, Seq<char>>, key: Seq<char>, d: Seq<char>) -> Seq<char> {
    if m.contains_key(key) {
        m[key]
    } else {
        d
    }
}

/// `p` occurs in `s`.
pub open spec fn holds_text(s: Seq<char>, p: Seq<char>) -> bool {
    find_sub(s, p) is Some
}

/// The decoration mode of a group (see `DecoMode`).
pub open spec fn deco_mode(m: Map<Seq<char>, Seq<char>>, prefix: Seq<char>) -> DecoMode {
    let bk = prefix + ".blendmethod"@;
    if m.contains_key(bk) && str_lowercase(trim(m[bk])) != none_word() {
        DecoMode::RasterOp
    } else if m.contains_key(prefix + ".font.color.r"@) {
        DecoMode::Simple
    } else {
        DecoMode::Plain
    }
}

/// A shadow set by a colour key: none where the colour is unset or
/// `none`; it outlines where the style key (by default `offset`) holds
/// `outline`.
pub open spec fn shadow_of(m: Map<Seq<char>, Seq<char>>, color_key: Seq<char>, style_key: Seq<char>) -> Option<Shadow> {
    match color_of(m, color_key) {
        Some(c) => Some(Shadow { color: c, outline: holds_text(text_or(m, style_key, "offset"@), "outline"@) }),
        None => None,
    }
}

/// The shadow of normal text.
pub open spec fn base_shadow(m: Map<Seq<char>, Seq<char>>) -> Option<Shadow> {
    shadow_of(m, "font.shadowcolor"@, "font.shadowstyle"@)
}

/// The style of a group of selectable text with key prefix `prefix`: as
/// normal text (colour `base`) without decoration where it is plain;
/// otherwise its font colour (default `text_d`), the square and underline
/// its style asks for (lower-cased; default `style_d`), pen and brush as
/// the font colour in the simple mode and their own keys otherwise
/// (defaults `pen_d`, `brush_d`), and in the simple mode its own shadow
/// where it sets one.
pub open spec fn group_style(
    m: Map<Seq<char>, Seq<char>>,
    base: Rgb,
    prefix: Seq<char>,
    text_d: Rgb,
    style_d: Seq<char>,
    pen_d: Rgb,
    brush_d: Rgb,
) -> LineStyle {
    let mode = deco_mode(m, prefix);
    let text = if mode == DecoMode::Plain {
        base
    } else {
        color_or(m, prefix + ".font.color"@, text_d)
    };
    let st = str_lowercase(text_or(m, prefix + ".style"@, style_d));
    let own_shadow = shadow_of(m, prefix + ".font.shadowcolor"@, prefix + ".font.shadowstyle"@);
    LineStyle {
        text,
        square: mode != DecoMode::Plain && holds_text(st, "square"@),
        underline: mode != DecoMode::Plain && holds_text(st, "underline"@),
        pen: if mode == DecoMode::Simple {
            text
        } else {
            color_or(m, prefix + ".pen.color"@, pen_d)
        },
        brush: if mode == DecoMode::Simple {
            text
        } else {
            color_or(m, prefix + ".brush.color"@, brush_d)
        },
        shadow: if mode == DecoMode::Simple && own_shadow is Some {
            own_shadow
        } else {
            base_shadow(m)
        },
    }
}

/// Plain text in colour `c`.
pub open spec fn plain_style(m: Map<Seq<char>, Seq<char>>, c: Rgb) -> LineStyle {
    LineStyle { text: c, square: false, underline: false, pen: Rgb(0, 0, 0), brush: Rgb(0, 0, 0), shadow: base_shadow(m) }
}

/// The styles of the sample lines, in order: normal text, disabled text
/// (colour `disabled`), choice not selected and selected, anchor not
/// selected, selected and visited.
pub open spec fn line_styles_of(m: Map<Seq<char>, Seq<char>>, disabled: Rgb) -> Seq<LineStyle> {
    let base = color_or(m, "font.color"@, Rgb(0, 0, 0));
    seq![
        plain_style(m, base),
        plain_style(m, disabled),
        group_style(m, base, "cursor.notselect"@, Rgb(0, 0, 255), "none"@, Rgb(0, 0, 0), Rgb(0, 0, 0)),
        group_style(m, base, "cursor"@, Rgb(255, 255, 255), "square"@, Rgb(0, 0, 0), Rgb(0, 0, 255)),
        group_style(m, base, "anchor.notselect"@, Rgb(0, 0, 255), "none"@, Rgb(0, 0, 0), Rgb(0, 0, 0)),
        group_style(m, base, "anchor"@, Rgb(0, 0, 255), "underline"@, Rgb(127, 127, 0), Rgb(0, 0, 0)),
        group_style(m, base, "anchor.visited"@, Rgb(170, 0, 170), "none"@, Rgb(0, 0, 0), Rgb(0, 0, 0)),
    ]
}

/// The group key prefixes of selectable text.
pub open spec fn group_prefixes() -> Seq<Seq<char>> {
    seq!["cursor.notselect"@, "cursor"@, "anchor.notselect"@, "anchor"@, "anchor.visited"@]
}

/// `a ++ b` as a new string.
fn join2(a: &str, b: &str) -> (s: String)
    ensures
        s@ == a@ + b@,
{
    let mut s = String::new();
    push_str(&mut s, a);
    push_str(&mut s, b);
    assert(s@ =~= a@ + b@);
    s
}

/// The colour of `key`, or `d` (see `color_or`).
fn color_or_exec(parsed: &StringHashMap<String>, key: &str, d: Rgb) -> (r: Rgb)
    ensures
        r == color_or(strs(parsed@), key@, d),
{
    match get_color(parsed, key) {
        Some(c) => c,
        None => d,
    }
}

/// Whether `p` occurs in `s` (see `holds_text`).
fn holds_exec(s: &str, p: &str) -> (r: bool)
    ensures
        r == holds_text(s@, p@),
{
    let v = chars_of(s);
    let pv = chars_of(p);
    assert(v@.subrange(0, v@.len() as int) =~= v@);
    find_sub_in(&v, 0, v.len(), &pv).is_some()
}

/// The shadow a colour key and a style key set (see `shadow_of`).
fn shadow_exec(parsed: &StringHashMap<String>, color_key: &str, style_key: &str) -> (r: Option<Shadow>)
    ensures
        r == shadow_of(strs(parsed@), color_key@, style_key@),
{
    match get_color(parsed, color_key) {
        Some(c) => {
            let outline = match parsed.get(style_key) {
                Some(v) => holds_exec(v.as_str(), "outline"),
                None => holds_exec("offset", "outline"),
            };
            Some(Shadow { color: c, outline })
        },
        None => None,
    }
}

/// The decoration mode of a group (see `deco_mode`).
fn deco_exec(parsed: &StringHashMap<String>, prefix: &str) -> (r: DecoMode)
    ensures
        r == deco_mode(strs(parsed@), prefix@),
{
    let bk = join2(prefix, ".blendmethod");
    let none_set = match parsed.get(bk.as_str()) {
        Some(v) => {
            let cv = chars_of(v.as_str());
            let (a, b) = trim_bounds(&cv, 0, cv.len());
            let t = crate::text::string_of(&cv, a, b);
            assert(cv@.subrange(0, cv@.len() as int) =~= cv@);
            let low = to_lowercase(t.as_str());
            proof {
                reveal_strlit("none");
                assert("none"@ =~= none_word());
                assert(t@ == trim(v@));
            }
            Some(str_eq(low.as_str(), "none"))
        },
        None => None,
    };
    match none_set {
        Some(false) => DecoMode::RasterOp,
        _ => {
            let ck = join2(prefix, ".font.color.r");
            if parsed.contains_key(ck.as_str()) {
                DecoMode::Simple
            } else {
                DecoMode::Plain
            }
        },
    }
}

/// The style of a group (see `group_style`).
fn group_exec(
    parsed: &StringHashMap<String>,
    base: Rgb,
    base_sh: Option<Shadow>,
    prefix: &str,
    text_d: Rgb,
    style_d: &str,
    pen_d: Rgb,
    brush_d: Rgb,
) -> (r: LineStyle)
    requires
        base_sh == base_shadow(strs(parsed@)),
    ensures
        r == group_style(strs(parsed@), base, prefix@, text_d, style_d@, pen_d, brush_d),
{
    let mode = deco_exec(parsed, prefix);
    let text = if mode == DecoMode::Plain {
        base
    } else {
        color_or_exec(parsed, join2(prefix, ".font.color").as_str(), text_d)
    };
    let sk = join2(prefix, ".style");
    let st = match parsed.get(sk.as_str()) {
        Some(v) => to_lowercase(v.as_str()),
        None => to_lowercase(style_d),
    };
    let plain = mode == DecoMode::Plain;
    let square = !plain && holds_exec(st.as_str(), "square");
    let underline = !plain && holds_exec(st.as_str(), "underline");
    let simple = mode == DecoMode::Simple;
    let pen = if simple {
        text
    } else {
        color_or_exec(parsed, join2(prefix, ".pen.color").as_str(), pen_d)
    };
    let brush = if simple {
        text
    } else {
        color_or_exec(parsed, join2(prefix, ".brush.color").as_str(), brush_d)
    };
    let own = shadow_exec(parsed, join2(prefix, ".font.shadowcolor").as_str(), join2(prefix, ".font.shadowstyle").as_str());
    let shadow = if simple && own.is_some() {
        own
    } else {
        base_sh
    };
    LineStyle { text, square, underline, pen, brush, shadow }
}

/// The styles of the sample lines (see `line_styles_of`), given the
/// colour of disabled text.
pub fn line_styles(parsed: &StringHashMap<String>, disabled: Rgb) -> (r: Vec<LineStyle>)
    ensures
        r@ == line_styles_of(strs(parsed@), disabled),
{
    let ghost m = strs(parsed@);
    proof {
        reveal_strlit("cursor.notselect");
        reveal_strlit("cursor");
        reveal_strlit("anchor.notselect");
        reveal_strlit("anchor");
        reveal_strlit("anchor.visited");
        assert(group_prefixes()[0] == "cursor.notselect"@);
        assert(group_prefixes()[1] == "cursor"@);
        assert(group_prefixes()[2] == "anchor.notselect"@);
        assert(group_prefixes()[3] == "anchor"@);
        assert(group_prefixes()[4] == "anchor.visited"@);
    }
    let base = color_or_exec(parsed, "font.color", Rgb(0, 0, 0));
    let sh = shadow_exec(parsed, "font.shadowcolor", "font.shadowstyle");
    let mut r: Vec<LineStyle> = Vec::new();
    r.push(LineStyle { text: base, square: false, underline: false, pen: Rgb(0, 0, 0), brush: Rgb(0, 0, 0), shadow: sh });
    r.push(
        LineStyle { text: disabled, square: false, underline: false, pen: Rgb(0, 0, 0), brush: Rgb(0, 0, 0), shadow: sh },
    );
    r.push(group_exec(parsed, base, sh, "cursor.notselect", Rgb(0, 0, 255), "none", Rgb(0, 0, 0), Rgb(0, 0, 0)));
    r.push(group_exec(parsed, base, sh, "cursor", Rgb(255, 255, 255), "square", Rgb(0, 0, 0), Rgb(0, 0, 255)));
    r.push(group_exec(parsed, base, sh, "anchor.notselect", Rgb(0, 0, 255), "none", Rgb(0, 0, 0), Rgb(0, 0, 0)));
    r.push(group_exec(parsed, base, sh, "anchor", Rgb(0, 0, 255), "underline", Rgb(127, 127, 0), Rgb(0, 0, 0)));
    r.push(group_exec(parsed, base, sh, "anchor.visited", Rgb(170, 0, 170), "none", Rgb(0, 0, 0), Rgb(0, 0, 0)));
    assert(r@ =~= line_styles_of(m, disabled));
    r
}

/// `v` kept within `lo..=hi` as `clamp` keeps it.
pub open spec fn clamp_int(v: int, lo: int, hi: int) -> int {
    if v < lo {
        lo
    } else if v > hi {
        hi
    } else {
        v
    }
}

/// The pixel at offset `(dx, dy)` from the centre, kept inside the image.
pub open spec fn near_center(img: &Image, dx: int, dy: int) -> Pixel {
    img.at(clamp_int(img.w() / 2 + dx, 0, img.w() - 1), clamp_int(img.h() / 2 + dy, 0, img.h() - 1))
}

/// The nine pixels around the centre, row by row.
pub open spec fn center_samples(img: &Image) -> Seq<Pixel> {
    Seq::new(9, |k: int| near_center(img, k % 3 - 1, k / 3 - 1))
}

/// The channel sums and the number of the pixels that are not fully
/// transparent.
pub open spec fn opaque_sum(ps: Seq<Pixel>) -> (int, int, int, int)
    decreases ps.len(),
{
    if ps.len() == 0 {
        (0, 0, 0, 0)
    } else {
        let (r, g, b, n) = opaque_sum(ps.drop_last());
        let p = ps.last();
        if p.3 > 0 {
            (r + p.0, g + p.1, b + p.2, n + 1)
        } else {
            (r, g, b, n)
        }
    }
}

/// The colour of disabled text: `disable.font.color` where set; else the
/// font colour mixed one to two with the balloon's colour near its centre
/// (the mean of the nine central pixels that are not transparent, white
/// where all are).
pub open spec fn disabled_color_of(m: Map<Seq<char>, Seq<char>>, img: &Image) -> Rgb {
    match color_of(m, "disable.font.color"@) {
        Some(c) => c,
        None => {
            let fc = color_or(m, "font.color"@, Rgb(0, 0, 0));
            let (r, g, b, n) = opaque_sum(center_samples(img));
            let bg = if n > 0 {
                Rgb((r / n) as u8, (g / n) as u8, (b / n) as u8)
            } else {
                Rgb(255, 255, 255)
            };
            Rgb(((fc.0 + 2 * bg.0) / 3) as u8, ((fc.1 + 2 * bg.1) / 3) as u8, ((fc.2 + 2 * bg.2) / 3) as u8)
        },
    }
}

/// The pixel at offset `(dx, dy)` from the centre (see `near_center`).
fn near_center_exec(img: &Image, dx: i64, dy: i64) -> (p: Pixel)
    requires
        img.wf(),
        img.w() > 0,
        img.h() > 0,
        -1 <= dx <= 1,
        -1 <= dy <= 1,
    ensures
        p == near_center(img, dx as int, dy as int),
{
    proof {
        img.lemma_sides();
    }
    let w = img.width() as i64;
    let h = img.height() as i64;
    let x0 = w / 2 + dx;
    let x = if x0 < 0 {
        0
    } else if x0 > w - 1 {
        w - 1
    } else {
        x0
    };
    let y0 = h / 2 + dy;
    let y = if y0 < 0 {
        0
    } else if y0 > h - 1 {
        h - 1
    } else {
        y0
    };
    img.get_pixel(x as u32, y as u32)
}

/// Adds a pixel to running sums (see `opaque_sum`).
fn add_sample(acc: (u64, u64, u64, u64), p: Pixel) -> (r: (u64, u64, u64, u64))
    requires
        acc.0 <= 255 * acc.3 && acc.1 <= 255 * acc.3 && acc.2 <= 255 * acc.3,
        acc.3 < 100,
    ensures
        r.0 <= 255 * r.3 && r.1 <= 255 * r.3 && r.2 <= 255 * r.3,
        r.3 <= acc.3 + 1,
        (r.0 as int, r.1 as int, r.2 as int, r.3 as int) == (if p.3 > 0 {
            (acc.0 + p.0, acc.1 + p.1, acc.2 + p.2, acc.3 + 1)
        } else {
            (acc.0 as int, acc.1 as int, acc.2 as int, acc.3 as int)
        }),
{
    if p.3 > 0 {
        (acc.0 + p.0 as u64, acc.1 + p.1 as u64, acc.2 + p.2 as u64, acc.3 + 1)
    } else {
        acc
    }
}

/// The colour of disabled text (see `disabled_color_of`) for the balloon
/// image `img`.
pub fn disabled_color(parsed: &StringHashMap<String>, img: &Image) -> (r: Rgb)
    requires
        img.wf(),
        color_of(strs(parsed@), "disable.font.color"@) is None ==> img.w() > 0 && img.h() > 0,
    ensures
        r == disabled_color_of(strs(parsed@), img),
{
    match get_color(parsed, "disable.font.color") {
        Some(c) => c,
        None => {
            let fc = color_or_exec(parsed, "font.color", Rgb(0, 0, 0));
            let ghost ss = center_samples(img);
            let mut acc: (u64, u64, u64, u64) = (0, 0, 0, 0);
            let mut k: usize = 0;
            assert(ss.take(0) =~= Seq::<Pixel>::empty());
            while k < 9
                invariant
                    k <= 9,
                    img.wf(),
                    img.w() > 0,
                    img.h() > 0,
                    ss == center_samples(img),
                    acc.3 <= k,
                    acc.0 <= 255 * acc.3 && acc.1 <= 255 * acc.3 && acc.2 <= 255 * acc.3,
                    (acc.0 as int, acc.1 as int, acc.2 as int, acc.3 as int) == opaque_sum(ss.take(k as int)),
                decreases 9 - k,
            {
                let p = near_center_exec(img, (k % 3) as i64 - 1, (k / 3) as i64 - 1);
                acc = add_sample(acc, p);
                assert(ss.take(k + 1).drop_last() =~= ss.take(k as int) && ss.take(k + 1).last() == ss[k as int]);
                k = k + 1;
            }
            assert(ss.take(9) =~= ss);
            let (sr, sg, sb, n) = acc;
            assert((sr as int, sg as int, sb as int, n as int) == opaque_sum(ss));
            let bg = if n > 0 {
                assert(sr / n <= 255 && sg / n <= 255 && sb / n <= 255) by (nonlinear_arith)
                    requires
                        sr <= 255 * n,
                        sg <= 255 * n,
                        sb <= 255 * n,
                        n > 0,
                ;
                Rgb((sr / n) as u8, (sg / n) as u8, (sb / n) as u8)
            } else {
                Rgb(255, 255, 255)
            };
            Rgb(
                ((fc.0 as u64 + 2 * bg.0 as u64) / 3) as u8,
                ((fc.1 as u64 + 2 * bg.1 as u64) / 3) as u8,
                ((fc.2 as u64 + 2 * bg.2 as u64) / 3) as u8,
            )
        },
    }
}

/// The colour of disabled text where it can be worked out: none where
/// `disable.font.color` gives no colour and the image has no centre to
/// sample (see `disabled_color`).
pub fn disabled_color_checked(parsed: &StringHashMap<String>, img: &Image) -> (r: Option<Rgb>)
    requires
        img.wf(),
    ensures
        r == (if color_of(strs(parsed@), "disable.font.color"@) is None && (img.w() == 0 || img.h() == 0) {
            None::<Rgb>
        } else {
            Some(disabled_color_of(strs(parsed@), img))
        }),
{
    if get_color(parsed, "disable.font.color").is_none() && (img.width() == 0 || img.height() == 0) {
        None
    } else {
        Some(disabled_color(parsed, img))
    }
}

} // verus!
