//! Preview settings read from `descript.txt`: the text area, colours given
//! as `#RRGGBB` or as `.r/.g/.b` keys, and font names (whether a font is
//! one of the bitmap-style MS fonts, and the key a font file is matched by).
use vstd::prelude::*;
use vstd::hash_map::StringHashMap;
use crate::color::{hex_color_result, parse_hex_color, trim_hashes, Rgb};
use crate::descript::{color_from_map, get_color_from_descript, none_word, pos_str, pos_value, str_eq, strs};
use crate::layout::split_by;
use crate::rows::{find_sub, find_sub_in};
use crate::text::{
    chars_of, find_char, find_char_in, is_ws, is_ws_char, lemma_find_char, push_char, str_lowercase,
    string_of, to_lowercase, trim, trim_bounds,
};

verus! {

/// Which sample text the preview draws.
#[derive(Debug, Clone, Copy, PartialEq, Eq, Structural)]
pub enum PreviewMode {
    /// The ordinary sample.
    A,
    /// The sample that shows where lines wrap.
    B,
}

/// What the preview draws besides the balloon.
pub struct DrawOptions {
    pub mode: PreviewMode,
    pub show_overlay: bool,
    pub is_balloonc: bool,
    pub balloon_name: String,
    /// The folder searched first for fonts.
    pub asset_dir: Option<String>,
}

impl Default for DrawOptions {
    /// Sample A, no overlay, an ordinary balloon, no name, no folder.
    fn default() -> (o: DrawOptions)
        ensures
            o.mode == PreviewMode::A,
            !o.show_overlay,
            !o.is_balloonc,
            o.balloon_name@ == Seq::<char>::empty(),
            o.asset_dir is None,
    {
        DrawOptions {
            mode: PreviewMode::A,
            show_overlay: false,
            is_balloonc: false,
            balloon_name: String::new(),
            asset_dir: None,
        }
    }
}

/// The text area of a balloon, in image coordinates.
#[derive(Debug, Clone, Copy, PartialEq, Eq, Structural)]
pub struct ValidRect {
    pub left: i32,
    pub top: i32,
    pub right: i32,
    pub bottom: i32,
}

/// The text of `key`, or `d` where the descript lacks it.
pub open spec fn text_or(m: Map<Seq<char>, Seq<char>>, key: Seq<char>, d: Seq<char>) -> Seq<char> {
    if m.contains_key(key) {
        m[key]
    } else {
        d
    }
}

/// The text area a descript gives (see `pos_value`), with the defaults
/// 10 from the left and top and 10 from the right and bottom.
pub open spec fn valid_rect_of(m: Map<Seq<char>, Seq<char>>, w: i32, h: i32) -> ValidRect {
    ValidRect {
        left: pos_value(text_or(m, "validrect.left"@, "10"@), w),
        top: pos_value(text_or(m, "validrect.top"@, "10"@), h),
        right: pos_value(text_or(m, "validrect.right"@, "-10"@), w),
        bottom: pos_value(text_or(m, "validrect.bottom"@, "-10"@), h),
    }
}

/// The text of `key` in `parsed`, or `d`.
fn text_or_exec<'a>(parsed: &'a StringHashMap<String>, key: &str, d: &'a str) -> (r: &'a str)
    ensures
        r@ == text_or(strs(parsed@), key@, d@),
{
    match parsed.get(key) {
        Some(s) => s.as_str(),
        None => d,
    }
}

/// The text area of a balloon of `w` × `h` pixels (see `valid_rect_of`).
pub fn build_valid_rect(parsed: &StringHashMap<String>, w: i32, h: i32) -> (r: ValidRect)
    ensures
        r == valid_rect_of(strs(parsed@), w, h),
{
    ValidRect {
        left: pos_str(text_or_exec(parsed, "validrect.left", "10"), w),
        top: pos_str(text_or_exec(parsed, "validrect.top", "10"), h),
        right: pos_str(text_or_exec(parsed, "validrect.right", "-10"), w),
        bottom: pos_str(text_or_exec(parsed, "validrect.bottom", "-10"), h),
    }
}

/// The colour a descript gives `key`: `none` (in any case, trimmed) gives
/// none; a `#RRGGBB` value gives that colour; otherwise the `.r/.g/.b` keys
/// decide (see `color_from_map`).
pub open spec fn color_of(m: Map<Seq<char>, Seq<char>>, key: Seq<char>) -> Option<Rgb> {
    if m.contains_key(key) && str_lowercase(trim(m[key])) == none_word() {
        None
    } else if m.contains_key(key) && hex_color_result(trim(m[key])) is Ok {
        Some(hex_color_result(trim(m[key]))->Ok_0)
    } else {
        color_from_map(m, key)
    }
}

/// The colour a descript gives `key` (see `color_of`).
pub fn get_color(parsed: &StringHashMap<String>, key: &str) -> (r: Option<Rgb>)
    ensures
        r == color_of(strs(parsed@), key@),
{
    proof {
        reveal_strlit("none");
    }
    if let Some(val) = parsed.get(key) {
        let cv = chars_of(val.as_str());
        let (a, b) = trim_bounds(&cv, 0, cv.len());
        assert(cv@.subrange(0, cv.len() as int) =~= cv@);
        let v = string_of(&cv, a, b);
        let low = to_lowercase(v.as_str());
        assert(none_word() =~= "none"@);
        if str_eq(low.as_str(), "none") {
            return None;
        }
        match parse_hex_color(v.as_str()) {
            Some(c) => {
                return Some(c);
            },
            None => {},
        }
    }
    get_color_from_descript(parsed, key)
}

/// Name for what `char::is_alphanumeric` returns (Unicode alphabetic or numeric).
pub uninterp spec fn char_alphanumeric(c: char) -> bool;

/// `char::is_alphanumeric`.
#[verifier::external_body]
fn is_alphanumeric(c: char) -> (r: bool)
    ensures
        r == char_alphanumeric(c),
{
    c.is_alphanumeric()
}

/// The letters, digits and underscores of a font name.
pub open spec fn key_chars(s: Seq<char>) -> Seq<char>
    decreases s.len(),
{
    if s.len() == 0 {
        Seq::empty()
    } else {
        let r = key_chars(s.drop_last());
        if char_alphanumeric(s.last()) || s.last() == '_' {
            r.push(s.last())
        } else {
            r
        }
    }
}

/// The key a font name is matched by: its letters, digits and underscores,
/// lower-cased.
pub fn normalize_font_key(s: &str) -> (r: String)
    ensures
        r@ == str_lowercase(key_chars(s@)),
{
    let v = chars_of(s);
    let mut k = String::new();
    let mut i: usize = 0;
    while i < v.len()
        invariant
            i <= v.len(),
            k@ == key_chars(v@.take(i as int)),
        decreases v.len() - i,
    {
        let c = v[i];
        assert(v@.take(i + 1).drop_last() =~= v@.take(i as int));
        if is_alphanumeric(c) || c == '_' {
            push_char(&mut k, c);
        }
        i = i + 1;
    }
    assert(v@.take(v.len() as int) =~= v@);
    to_lowercase(k.as_str())
}

/// A character of a font name as compared: full-width Latin letters and
/// digits become their ASCII lower-case forms, ASCII letters lower-case.
pub open spec fn fold_char(c: char) -> char {
    let cp = c as u32;
    if 0xFF21 <= cp <= 0xFF3A {
        (cp - 0xFF21 + 97) as char
    } else if 0xFF41 <= cp <= 0xFF5A {
        (cp - 0xFF41 + 97) as char
    } else if 0xFF10 <= cp <= 0xFF19 {
        (cp - 0xFF10 + 48) as char
    } else if 'A' <= c <= 'Z' {
        (cp + 32) as char
    } else {
        c
    }
}

/// A font name as compared: whitespace dropped, the rest folded (see `fold_char`).
pub open spec fn folded_name(s: Seq<char>) -> Seq<char>
    decreases s.len(),
{
    if s.len() == 0 {
        Seq::empty()
    } else {
        let r = folded_name(s.drop_last());
        if is_ws(s.last()) {
            r
        } else {
            r.push(fold_char(s.last()))
        }
    }
}

/// The names of the MS bitmap-style fonts, as they appear once folded.
pub open spec fn bitmap_font_marks() -> Seq<Seq<char>> {
    seq!["msgothic"@, "msmincho"@, "mspgothic"@, "mspmincho"@, "msゴシック"@, "ms明朝"@, "mspゴシック"@]
}

/// Whether a font name names one of the MS Gothic / MS Mincho family, which
/// the preview draws without anti-aliasing.
pub open spec fn is_bitmap_name(name: Seq<char>) -> bool {
    exists|k: int| 0 <= k < bitmap_font_marks().len() && find_sub(folded_name(name), bitmap_font_marks()[k]) is Some
}

/// `fold_char`.
fn fold_char_exec(c: char) -> (r: char)
    ensures
        r == fold_char(c),
{
    let cp = c as u32;
    if 0xFF21 <= cp && cp <= 0xFF3A {
        ((cp - 0xFF21 + 97) as u8) as char
    } else if 0xFF41 <= cp && cp <= 0xFF5A {
        ((cp - 0xFF41 + 97) as u8) as char
    } else if 0xFF10 <= cp && cp <= 0xFF19 {
        ((cp - 0xFF10 + 48) as u8) as char
    } else if 'A' <= c && c <= 'Z' {
        ((cp + 32) as u8) as char
    } else {
        c
    }
}

/// Whether the folded name contains `mark`.
fn has_mark(v: &Vec<char>, mark: &str) -> (r: bool)
    ensures
        r == (find_sub(v@, mark@) is Some),
{
    let m = chars_of(mark);
    assert(v@.subrange(0, v.len() as int) =~= v@);
    match find_sub_in(v, 0, v.len(), &m) {
        Some(_) => true,
        None => false,
    }
}

/// Whether a font name (one name, no list) is an MS bitmap-style font (see `is_bitmap_name`).
pub fn normalize_font_name_for_match(name: &str) -> (r: bool)
    ensures
        r == is_bitmap_name(name@),
{
    let v = chars_of(name);
    let mut f: Vec<char> = Vec::new();
    let mut i: usize = 0;
    while i < v.len()
        invariant
            i <= v.len(),
            f@ == folded_name(v@.take(i as int)),
        decreases v.len() - i,
    {
        let c = v[i];
        assert(v@.take(i + 1).drop_last() =~= v@.take(i as int));
        if !is_ws_char(c) {
            f.push(fold_char_exec(c));
        }
        i = i + 1;
    }
    assert(v@.take(v.len() as int) =~= v@);
    let r = has_mark(&f, "msgothic") || has_mark(&f, "msmincho") || has_mark(&f, "mspgothic")
        || has_mark(&f, "mspmincho") || has_mark(&f, "msゴシック") || has_mark(&f, "ms明朝")
        || has_mark(&f, "mspゴシック");
    proof {
        let ms = bitmap_font_marks();
        if r {
            if find_sub(f@, "msgothic"@) is Some {
                assert(ms[0] == "msgothic"@);
            } else if find_sub(f@, "msmincho"@) is Some {
                assert(ms[1] == "msmincho"@);
            } else if find_sub(f@, "mspgothic"@) is Some {
                assert(ms[2] == "mspgothic"@);
            } else if find_sub(f@, "mspmincho"@) is Some {
                assert(ms[3] == "mspmincho"@);
            } else if find_sub(f@, "msゴシック"@) is Some {
                assert(ms[4] == "msゴシック"@);
            } else if find_sub(f@, "ms明朝"@) is Some {
                assert(ms[5] == "ms明朝"@);
            } else {
                assert(ms[6] == "mspゴシック"@);
            }
        } else {
            assert forall|k: int| 0 <= k < ms.len() implies !(find_sub(f@, ms[k]) is Some) by {
                assert(ms[0] == "msgothic"@);
                assert(ms[1] == "msmincho"@);
                assert(ms[2] == "mspgothic"@);
                assert(ms[3] == "mspmincho"@);
                assert(ms[4] == "msゴシック"@);
                assert(ms[5] == "ms明朝"@);
                assert(ms[6] == "mspゴシック"@);
            }
        }
    }
    r
}

/// Whether the first of a comma-separated list of font names is an MS
/// bitmap-style font.
pub fn is_bitmap_font(name: &str) -> (r: bool)
    ensures
        r == is_bitmap_name(trim(split_by(name@, ',')[0])),
{
    let v = chars_of(name);
    proof {
        lemma_find_char(name@, ',');
    }
    assert(v@.subrange(0, v.len() as int) =~= v@);
    let end = match find_char_in(&v, 0, v.len(), ',') {
        Some(c) => {
            assert(split_by(name@, ',')[0] == name@.take(c as int));
            assert(name@.take(c as int) =~= v@.subrange(0, c as int));
            c
        },
        None => v.len(),
    };
    let (a, b) = trim_bounds(&v, 0, end);
    let first = string_of(&v, a, b);
    normalize_font_name_for_match(first.as_str())
}

/// The text without its ASCII spaces.
pub open spec fn without_spaces(s: Seq<char>) -> Seq<char>
    decreases s.len(),
{
    if s.len() == 0 {
        Seq::empty()
    } else if s.last() == ' ' {
        without_spaces(s.drop_last())
    } else {
        without_spaces(s.drop_last()).push(s.last())
    }
}

/// Whether the system drew with another font than the one asked for: it
/// named a font, and neither name, lower-cased and without spaces, holds
/// the other.
pub open spec fn substituted(requested: Seq<char>, actual: Seq<char>) -> bool {
    let rk = without_spaces(str_lowercase(requested));
    let ak = without_spaces(str_lowercase(actual));
    actual.len() > 0 && find_sub(ak, rk) is None && find_sub(rk, ak) is None
}

/// `s` without its spaces.
fn spaces_removed(s: &str) -> (r: Vec<char>)
    ensures
        r@ == without_spaces(s@),
{
    let v = chars_of(s);
    let mut out: Vec<char> = Vec::new();
    let mut i: usize = 0;
    while i < v.len()
        invariant
            i <= v.len(),
            out@ == without_spaces(v@.take(i as int)),
        decreases v.len() - i,
    {
        assert(v@.take(i + 1).drop_last() =~= v@.take(i as int));
        if v[i] != ' ' {
            out.push(v[i]);
        }
        i = i + 1;
    }
    assert(v@.take(v.len() as int) =~= v@);
    out
}

/// Whether the system substituted another font for the one asked for (see `substituted`).
pub fn font_was_substituted(requested: &str, actual: &str) -> (r: bool)
    ensures
        r == substituted(requested@, actual@),
{
    if actual.is_empty() {
        return false;
    }
    let rl = to_lowercase(requested);
    let al = to_lowercase(actual);
    let rk = spaces_removed(rl.as_str());
    let ak = spaces_removed(al.as_str());
    assert(rk@.subrange(0, rk@.len() as int) =~= rk@);
    assert(ak@.subrange(0, ak@.len() as int) =~= ak@);
    let a_has_r = find_sub_in(&ak, 0, ak.len(), &rk).is_some();
    let r_has_a = find_sub_in(&rk, 0, rk.len(), &ak).is_some();
    !a_has_r && !r_has_a
}

} // verus!
