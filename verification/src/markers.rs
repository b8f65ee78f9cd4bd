//! The marker images of a balloon preview: which part image each marker
//! uses for the kind of balloon, where it goes, and pasting them.
use vstd::prelude::*;
use vstd::hash_map::StringHashMap;
use crate::defaults::{from_far, from_far_exec, half_toward_zero};
use crate::descript::{pos_str, pos_value, strs};
use crate::editing::without_png;
use crate::raster::{alpha_paste, blended, fits32, under_paste, Image, Pixel};
use crate::color::Rgb;
use crate::rows::{find_sub, find_sub_in};
use crate::text::{chars_of, ends_with, push_str, starts_with, starts_with_at, string_of};

verus! {

/// `s` with every leading `p` removed (`trim_start_matches`).
pub open spec fn trim_prefixes(s: Seq<char>, p: Seq<char>) -> Seq<char>
    decreases s.len(),
{
    if p.len() > 0 && starts_with(s, p) {
        trim_prefixes(s.skip(p.len() as int), p)
    } else {
        s
    }
}

/// The number `N` of a `balloonpNdefD` stem: what follows the leading
/// `balloonp`s up to the first `def`; empty for other stems.
pub open spec fn p_number(stem: Seq<char>) -> Seq<char> {
    if starts_with(stem, "balloonp"@) {
        let after = trim_prefixes(stem, "balloonp"@);
        match find_sub(after, "def"@) {
            Some(i) => after.take(i),
            None => Seq::empty(),
        }
    } else {
        Seq::empty()
    }
}

/// The balloon's own arrow image for direction `d`: `arrowkD.png` for a
/// `balloonk` stem, `arrowpNdefD.png` for a `balloonpN…` one, else
/// `arrowsD.png`.
pub open spec fn arrow_own(stem: Seq<char>, d: Seq<char>) -> Seq<char> {
    if starts_with(stem, "balloonk"@) {
        "arrowk"@ + d + ".png"@
    } else if starts_with(stem, "balloonp"@) && p_number(stem).len() > 0 {
        "arrowp"@ + p_number(stem) + "def"@ + d + ".png"@
    } else {
        "arrows"@ + d + ".png"@
    }
}

/// The balloon's own click-wait image: `clickwaitk.png`,
/// `clickwaitpNdef.png` or `clickwaits.png`, as for the arrows.
pub open spec fn clickwait_own(stem: Seq<char>) -> Seq<char> {
    if starts_with(stem, "balloonk"@) {
        "clickwaitk.png"@
    } else if starts_with(stem, "balloonp"@) && p_number(stem).len() > 0 {
        "clickwaitp"@ + p_number(stem) + "def.png"@
    } else {
        "clickwaits.png"@
    }
}

/// `first` where there is such a part image, else `second` where there
/// is, else none.
pub open spec fn pick(sizes: Map<Seq<char>, (u32, u32)>, first: Seq<char>, second: Seq<char>) -> Option<Seq<char>> {
    if sizes.contains_key(first) {
        Some(first)
    } else if sizes.contains_key(second) {
        Some(second)
    } else {
        None
    }
}

/// The value of `key`, or `d` where it is unset.
pub open spec fn value_or(parsed: Map<Seq<char>, Seq<char>>, key: Seq<char>, d: Seq<char>) -> Seq<char> {
    if parsed.contains_key(key) {
        parsed[key]
    } else {
        d
    }
}

/// The first arrow: in by 5 pixels and its width from the right, 5 from
/// the top.
pub open spec fn arrow0_place(
    parsed: Map<Seq<char>, Seq<char>>,
    sizes: Map<Seq<char>, (u32, u32)>,
    stem: Seq<char>,
    iw: i32,
    ih: i32,
) -> Seq<(Seq<char>, i32, i32)> {
    match pick(sizes, arrow_own(stem, "0"@), "arrow0.png"@) {
        Some(n) => seq![
            (
                n,
                pos_value(value_or(parsed, "arrow0.x"@, from_far(5 + sizes[n].0)), iw),
                pos_value(value_or(parsed, "arrow0.y"@, "5"@), ih),
            ),
        ],
        None => Seq::empty(),
    }
}

/// The second arrow: in by 5 pixels and its size from the right and the
/// bottom.
pub open spec fn arrow1_place(
    parsed: Map<Seq<char>, Seq<char>>,
    sizes: Map<Seq<char>, (u32, u32)>,
    stem: Seq<char>,
    iw: i32,
    ih: i32,
) -> Seq<(Seq<char>, i32, i32)> {
    match pick(sizes, arrow_own(stem, "1"@), "arrow1.png"@) {
        Some(n) => seq![
            (
                n,
                pos_value(value_or(parsed, "arrow1.x"@, from_far(5 + sizes[n].0)), iw),
                pos_value(value_or(parsed, "arrow1.y"@, from_far(5 + sizes[n].1)), ih),
            ),
        ],
        None => Seq::empty(),
    }
}

/// The online marker: centred at the bottom.
pub open spec fn online_place(
    parsed: Map<Seq<char>, Seq<char>>,
    sizes: Map<Seq<char>, (u32, u32)>,
    iw: i32,
    ih: i32,
) -> Seq<(Seq<char>, i32, i32)> {
    if sizes.contains_key("online0.png"@) {
        let s = sizes["online0.png"@];
        seq![
            (
                "online0.png"@,
                if parsed.contains_key("onlinemarker.x"@) {
                    pos_value(parsed["onlinemarker.x"@], iw)
                } else {
                    half_toward_zero(iw - s.0) as i32
                },
                if parsed.contains_key("onlinemarker.y"@) {
                    pos_value(parsed["onlinemarker.y"@], ih)
                } else {
                    (ih - s.1) as i32
                },
            ),
        ]
    } else {
        Seq::empty()
    }
}

/// The SSTP marker (`sstp_new.png`, else `sstp.png`): 5 pixels from the
/// left, in by 5 and its height from the bottom.
pub open spec fn sstp_place(
    parsed: Map<Seq<char>, Seq<char>>,
    sizes: Map<Seq<char>, (u32, u32)>,
    iw: i32,
    ih: i32,
) -> Seq<(Seq<char>, i32, i32)> {
    match pick(sizes, "sstp_new.png"@, "sstp.png"@) {
        Some(n) => seq![
            (
                n,
                pos_value(value_or(parsed, "sstpmarker.x"@, "5"@), iw),
                pos_value(value_or(parsed, "sstpmarker.y"@, from_far(5 + sizes[n].1)), ih),
            ),
        ],
        None => Seq::empty(),
    }
}

/// The click-wait marker: in by 10 pixels and its size from the right and
/// the bottom.
pub open spec fn clickwait_place(
    parsed: Map<Seq<char>, Seq<char>>,
    sizes: Map<Seq<char>, (u32, u32)>,
    stem: Seq<char>,
    iw: i32,
    ih: i32,
) -> Seq<(Seq<char>, i32, i32)> {
    match pick(sizes, clickwait_own(stem), "clickwait.png"@) {
        Some(n) => seq![
            (
                n,
                pos_value(value_or(parsed, "clickwaitmarker.x"@, from_far(10 + sizes[n].0)), iw),
                pos_value(value_or(parsed, "clickwaitmarker.y"@, from_far(10 + sizes[n].1)), ih),
            ),
        ],
        None => Seq::empty(),
    }
}

/// Where the markers of balloon `name` (an image of `iw` × `ih`) go, in
/// the order they are pasted: part image name and top-left corner. Each
/// marker whose image exists goes where `descript.txt` sets it, or else
/// at its default (see the `_place` functions).
pub open spec fn marker_placements_of(
    parsed: Map<Seq<char>, Seq<char>>,
    sizes: Map<Seq<char>, (u32, u32)>,
    name: Seq<char>,
    iw: i32,
    ih: i32,
) -> Seq<(Seq<char>, i32, i32)> {
    let stem = without_png(name);
    arrow0_place(parsed, sizes, stem, iw, ih) + arrow1_place(parsed, sizes, stem, iw, ih) + online_place(
        parsed,
        sizes,
        iw,
        ih,
    ) + sstp_place(parsed, sizes, iw, ih) + clickwait_place(parsed, sizes, stem, iw, ih)
}

/// A placement as a sequence of none or one.
pub open spec fn placed(r: Option<(String, i32, i32)>) -> Seq<(Seq<char>, i32, i32)> {
    match r {
        Some(p) => seq![(p.0@, p.1, p.2)],
        None => Seq::empty(),
    }
}

/// The placements as names and corners.
pub open spec fn places_view(v: Seq<(String, i32, i32)>) -> Seq<(Seq<char>, i32, i32)> {
    v.map_values(|p: (String, i32, i32)| (p.0@, p.1, p.2))
}

/// `name` with every trailing `.png` removed (see `without_png`).
pub fn stem_without_png(name: &str) -> (r: Vec<char>)
    ensures
        r@ == without_png(name@),
{
    proof {
        reveal_strlit(".png");
    }
    let v = chars_of(name);
    let dot_png = chars_of(".png");
    let mut end = v.len();
    assert(v@.take(v.len() as int) =~= v@);
    while end >= 4 && starts_with_at(&v, end - 4, end, &dot_png)
        invariant
            end <= v.len(),
            dot_png@ == ".png"@,
            ".png"@.len() == 4,
            without_png(v@.take(end as int)) == without_png(v@),
        decreases end,
    {
        proof {
            let s = v@.take(end as int);
            assert(s.subrange(s.len() - 4, s.len() as int) =~= v@.subrange(end - 4, end as int));
            assert(v@.subrange(end - 4, end as int).subrange(0, 4) =~= v@.subrange(end - 4, end as int));
            assert(s.take(s.len() - 4) =~= v@.take(end - 4));
        }
        end = end - 4;
    }
    proof {
        let s = v@.take(end as int);
        if s.len() >= 4 && ends_with(s, ".png"@) {
            assert(s.subrange(s.len() - 4, s.len() as int) =~= v@.subrange(end - 4, end as int));
            assert(v@.subrange(end - 4, end as int).subrange(0, 4) =~= v@.subrange(end - 4, end as int));
        }
    }
    let mut r: Vec<char> = Vec::new();
    let mut i: usize = 0;
    while i < end
        invariant
            i <= end <= v.len(),
            r@ == v@.take(i as int),
        decreases end - i,
    {
        r.push(v[i]);
        assert(v@.take(i + 1) =~= v@.take(i as int).push(v@[i as int]));
        i = i + 1;
    }
    r
}

/// `v` starts with the text `p`.
fn has_prefix(v: &Vec<char>, p: &str) -> (r: bool)
    ensures
        r == starts_with(v@, p@),
{
    let pv = chars_of(p);
    assert(v@.subrange(0, v@.len() as int) =~= v@);
    starts_with_at(v, 0, v.len(), &pv)
}

/// The index at which `v` is left once every leading `p` is removed.
fn trim_prefixes_at(v: &Vec<char>, p: &Vec<char>) -> (r: usize)
    requires
        p@.len() > 0,
    ensures
        r <= v.len(),
        v@.skip(r as int) == trim_prefixes(v@, p@),
{
    let mut a: usize = 0;
    assert(v@.skip(0) =~= v@);
    while starts_with_at(v, a, v.len(), p)
        invariant
            a <= v.len(),
            p@.len() > 0,
            trim_prefixes(v@.skip(a as int), p@) == trim_prefixes(v@, p@),
        decreases v.len() - a,
    {
        assert(v@.subrange(a as int, v.len() as int) =~= v@.skip(a as int));
        assert(v@.skip(a as int).skip(p@.len() as int) =~= v@.skip(a + p.len()));
        a = a + p.len();
    }
    assert(v@.subrange(a as int, v.len() as int) =~= v@.skip(a as int));
    a
}

/// The number of a `balloonp` stem (see `p_number`).
fn p_number_exec(stem: &Vec<char>) -> (r: String)
    ensures
        r@ == p_number(stem@),
{
    proof {
        reveal_strlit("balloonp");
    }
    if !has_prefix(stem, "balloonp") {
        return String::new();
    }
    let pre = chars_of("balloonp");
    let a = trim_prefixes_at(stem, &pre);
    let def = chars_of("def");
    assert(stem@.subrange(a as int, stem.len() as int) =~= stem@.skip(a as int));
    match find_sub_in(stem, a, stem.len(), &def) {
        Some(i) => {
            let r = string_of(stem, a, i);
            assert(stem@.subrange(a as int, i as int) =~= stem@.skip(a as int).take(i - a));
            r
        },
        None => String::new(),
    }
}

/// `a ++ b ++ c` as a new string.
fn concat3(a: &str, b: &str, c: &str) -> (s: String)
    ensures
        s@ == a@ + b@ + c@,
{
    let mut s = String::new();
    push_str(&mut s, a);
    push_str(&mut s, b);
    push_str(&mut s, c);
    assert(s@ =~= a@ + b@ + c@);
    s
}

/// The balloon's own image name of a marker (see `arrow_own` and
/// `clickwait_own`): `k_name`, `p_head` ++ N ++ `p_tail`, or `s_name`.
fn own_name(stem: &Vec<char>, k_name: &str, p_head: &str, p_tail: &str, s_name: &str) -> (r: String)
    ensures
        r@ == (if starts_with(stem@, "balloonk"@) {
            k_name@
        } else if starts_with(stem@, "balloonp"@) && p_number(stem@).len() > 0 {
            p_head@ + p_number(stem@) + p_tail@
        } else {
            s_name@
        }),
{
    let n = p_number_exec(stem);
    let nv = chars_of(n.as_str());
    if has_prefix(stem, "balloonk") {
        String::from_str(k_name)
    } else if has_prefix(stem, "balloonp") && nv.len() > 0 {
        concat3(p_head, n.as_str(), p_tail)
    } else {
        String::from_str(s_name)
    }
}

/// The part image picked of two names (see `pick`), with its size.
fn pick_exec(sizes: &StringHashMap<(u32, u32)>, first: String, second: &str) -> (r: Option<(String, (u32, u32))>)
    ensures
        match r {
            Some((n, s)) => pick(sizes@, first@, second@) == Some(n@) && sizes@[n@] == s,
            None => pick(sizes@, first@, second@) is None,
        },
{
    match sizes.get(first.as_str()) {
        Some(s) => Some((first, *s)),
        None => match sizes.get(second) {
            Some(s) => Some((String::from_str(second), *s)),
            None => None,
        },
    }
}

/// The position `key` sets, or the default `d`, along a side of `size`.
fn pos_or(parsed: &StringHashMap<String>, key: &str, d: &str, size: i32) -> (r: i32)
    ensures
        r == pos_value(value_or(strs(parsed@), key@, d@), size),
{
    match parsed.get(key) {
        Some(v) => pos_str(v.as_str(), size),
        None => pos_str(d, size),
    }
}

/// Appends a placement, if there is one.
fn push_place(out: &mut Vec<(String, i32, i32)>, p: Option<(String, i32, i32)>)
    ensures
        places_view(final(out)@) == places_view(old(out)@) + placed(p),
{
    let ghost before = out@;
    match p {
        Some(q) => {
            out.push(q);
            assert(places_view(out@) =~= places_view(before) + placed(p));
        },
        None => {
            assert(places_view(out@) =~= places_view(before) + placed(p));
        },
    }
}

fn place_arrow0(parsed: &StringHashMap<String>, sizes: &StringHashMap<(u32, u32)>, stem: &Vec<char>, iw: i32, ih: i32) -> (r:
    Option<(String, i32, i32)>)
    ensures
        placed(r) == arrow0_place(strs(parsed@), sizes@, stem@, iw, ih),
{
    proof {
        reveal_strlit("arrowk0.png");
        reveal_strlit("arrows0.png");
        reveal_strlit("def0.png");
        reveal_strlit("def");
        reveal_strlit("0");
        reveal_strlit("arrowk");
        reveal_strlit("arrows");
        reveal_strlit(".png");
    }
    let own = own_name(stem, "arrowk0.png", "arrowp", "def0.png", "arrows0.png");
    assert(own@ == arrow_own(stem@, "0"@)) by {
        assert("arrowk"@ + "0"@ + ".png"@ =~= "arrowk0.png"@);
        assert("arrows"@ + "0"@ + ".png"@ =~= "arrows0.png"@);
        assert("arrowp"@ + p_number(stem@) + "def"@ + "0"@ + ".png"@ =~= "arrowp"@ + p_number(stem@) + "def0.png"@);
    }
    match pick_exec(sizes, own, "arrow0.png") {
        Some((n, s)) => {
            let dx = from_far_exec(5 + s.0 as u64);
            let x = pos_or(parsed, "arrow0.x", dx.as_str(), iw);
            let y = pos_or(parsed, "arrow0.y", "5", ih);
            Some((n, x, y))
        },
        None => None,
    }
}

fn place_arrow1(parsed: &StringHashMap<String>, sizes: &StringHashMap<(u32, u32)>, stem: &Vec<char>, iw: i32, ih: i32) -> (r:
    Option<(String, i32, i32)>)
    ensures
        placed(r) == arrow1_place(strs(parsed@), sizes@, stem@, iw, ih),
{
    proof {
        reveal_strlit("arrowk1.png");
        reveal_strlit("arrows1.png");
        reveal_strlit("def1.png");
        reveal_strlit("def");
        reveal_strlit("1");
        reveal_strlit("arrowk");
        reveal_strlit("arrows");
        reveal_strlit(".png");
    }
    let own = own_name(stem, "arrowk1.png", "arrowp", "def1.png", "arrows1.png");
    assert(own@ == arrow_own(stem@, "1"@)) by {
        assert("arrowk"@ + "1"@ + ".png"@ =~= "arrowk1.png"@);
        assert("arrows"@ + "1"@ + ".png"@ =~= "arrows1.png"@);
        assert("arrowp"@ + p_number(stem@) + "def"@ + "1"@ + ".png"@ =~= "arrowp"@ + p_number(stem@) + "def1.png"@);
    }
    match pick_exec(sizes, own, "arrow1.png") {
        Some((n, s)) => {
            let dx = from_far_exec(5 + s.0 as u64);
            let dy = from_far_exec(5 + s.1 as u64);
            let x = pos_or(parsed, "arrow1.x", dx.as_str(), iw);
            let y = pos_or(parsed, "arrow1.y", dy.as_str(), ih);
            Some((n, x, y))
        },
        None => None,
    }
}

fn place_online(parsed: &StringHashMap<String>, sizes: &StringHashMap<(u32, u32)>, iw: i32, ih: i32) -> (r: Option<
    (String, i32, i32),
>)
    requires
        0 <= iw,
        0 <= ih,
        forall|k: Seq<char>| #[trigger] sizes@.contains_key(k) ==> sizes@[k].0 <= i32::MAX && sizes@[k].1 <= i32::MAX,
    ensures
        placed(r) == online_place(strs(parsed@), sizes@, iw, ih),
{
    match sizes.get("online0.png") {
        Some(s) => {
            assert(sizes@.contains_key("online0.png"@));
            let ow = s.0 as i32;
            let oh = s.1 as i32;
            let x = match parsed.get("onlinemarker.x") {
                Some(v) => pos_str(v.as_str(), iw),
                None => {
                    let diff = iw - ow;
                    let h = if diff >= 0 {
                        diff / 2
                    } else {
                        -((-diff) / 2)
                    };
                    assert(h as int == half_toward_zero(iw - s.0));
                    h
                },
            };
            let y = match parsed.get("onlinemarker.y") {
                Some(v) => pos_str(v.as_str(), ih),
                None => ih - oh,
            };
            Some((String::from_str("online0.png"), x, y))
        },
        None => None,
    }
}

fn place_sstp(parsed: &StringHashMap<String>, sizes: &StringHashMap<(u32, u32)>, iw: i32, ih: i32) -> (r: Option<
    (String, i32, i32),
>)
    ensures
        placed(r) == sstp_place(strs(parsed@), sizes@, iw, ih),
{
    match pick_exec(sizes, String::from_str("sstp_new.png"), "sstp.png") {
        Some((n, s)) => {
            let dy = from_far_exec(5 + s.1 as u64);
            let x = pos_or(parsed, "sstpmarker.x", "5", iw);
            let y = pos_or(parsed, "sstpmarker.y", dy.as_str(), ih);
            Some((n, x, y))
        },
        None => None,
    }
}

fn place_clickwait(
    parsed: &StringHashMap<String>,
    sizes: &StringHashMap<(u32, u32)>,
    stem: &Vec<char>,
    iw: i32,
    ih: i32,
) -> (r: Option<(String, i32, i32)>)
    ensures
        placed(r) == clickwait_place(strs(parsed@), sizes@, stem@, iw, ih),
{
    proof {
        reveal_strlit("clickwaitk.png");
        reveal_strlit("clickwaits.png");
        reveal_strlit("clickwaitp");
        reveal_strlit("def.png");
    }
    let own = own_name(stem, "clickwaitk.png", "clickwaitp", "def.png", "clickwaits.png");
    match pick_exec(sizes, own, "clickwait.png") {
        Some((n, s)) => {
            let dx = from_far_exec(10 + s.0 as u64);
            let dy = from_far_exec(10 + s.1 as u64);
            let x = pos_or(parsed, "clickwaitmarker.x", dx.as_str(), iw);
            let y = pos_or(parsed, "clickwaitmarker.y", dy.as_str(), ih);
            Some((n, x, y))
        },
        None => None,
    }
}

/// Where the markers of balloon `name` go (see `marker_placements_of`);
/// `sizes` gives the part images by name, `iw` × `ih` is the balloon's size.
pub fn marker_placements(
    parsed: &StringHashMap<String>,
    sizes: &StringHashMap<(u32, u32)>,
    name: &str,
    iw: i32,
    ih: i32,
) -> (r: Vec<(String, i32, i32)>)
    requires
        0 <= iw,
        0 <= ih,
        forall|k: Seq<char>| #[trigger] sizes@.contains_key(k) ==> sizes@[k].0 <= i32::MAX && sizes@[k].1 <= i32::MAX,
    ensures
        places_view(r@) == marker_placements_of(strs(parsed@), sizes@, name@, iw, ih),
{
    let stem = stem_without_png(name);
    let mut out: Vec<(String, i32, i32)> = Vec::new();
    assert(places_view(out@) =~= Seq::<(Seq<char>, i32, i32)>::empty());
    push_place(&mut out, place_arrow0(parsed, sizes, &stem, iw, ih));
    push_place(&mut out, place_arrow1(parsed, sizes, &stem, iw, ih));
    push_place(&mut out, place_online(parsed, sizes, iw, ih));
    push_place(&mut out, place_sstp(parsed, sizes, iw, ih));
    push_place(&mut out, place_clickwait(parsed, sizes, &stem, iw, ih));
    assert(places_view(out@) =~= marker_placements_of(strs(parsed@), sizes@, name@, iw, ih));
    out
}

/// `d` with `src` alpha-blended over it, its top-left corner at
/// `(px, py)` (what `alpha_paste` does).
pub open spec fn paste_view(d: Seq<Seq<Pixel>>, src: Image, px: int, py: int) -> Seq<Seq<Pixel>> {
    Seq::new(
        d.len(),
        |j: int|
            Seq::new(
                d[j].len(),
                |i: int|
                    if under_paste(&src, px, py, i, j) {
                        blended(
                            d[j][i],
                            Rgb(src.at(i - px, j - py).0, src.at(i - px, j - py).1, src.at(i - px, j - py).2),
                            src.at(i - px, j - py).3,
                        )
                    } else {
                        d[j][i]
                    },
            ),
    )
}

/// `d` with the part images pasted in order at their placements.
pub open spec fn pasted_all(
    d: Seq<Seq<Pixel>>,
    parts: Map<Seq<char>, Image>,
    places: Seq<(Seq<char>, i32, i32)>,
) -> Seq<Seq<Pixel>>
    decreases places.len(),
{
    if places.len() == 0 {
        d
    } else {
        let p = places.last();
        paste_view(pasted_all(d, parts, places.drop_last()), parts[p.0], p.1 as int, p.2 as int)
    }
}

/// Every placement names a well-formed part image whose far corner, at
/// that placement, has coordinates that fit in an `i32`.
pub open spec fn placements_fit(parts: Map<Seq<char>, Image>, places: Seq<(Seq<char>, i32, i32)>) -> bool {
    forall|k: int|
        0 <= k < places.len() ==> {
            let p = #[trigger] places[k];
            &&& parts.contains_key(p.0)
            &&& parts[p.0].wf()
            &&& parts[p.0].w() > 0 && parts[p.0].h() > 0 ==> fits32(p.1 + parts[p.0].w() - 1) && fits32(
                p.2 + parts[p.0].h() - 1,
            )
        }
}

/// Pastes the part images onto the balloon image in order, each at its
/// placement (see `pasted_all`).
pub fn paste_parts(img: &mut Image, parts: &StringHashMap<Image>, places: &Vec<(String, i32, i32)>)
    requires
        old(img).wf(),
        placements_fit(parts@, places_view(places@)),
    ensures
        final(img).wf(),
        final(img).w() == old(img).w(),
        final(img).h() == old(img).h(),
        final(img)@ == pasted_all(old(img)@, parts@, places_view(places@)),
{
    let ghost d0 = img@;
    let ghost pv = places_view(places@);
    let mut k: usize = 0;
    assert(pv.take(0) =~= Seq::<(Seq<char>, i32, i32)>::empty());
    while k < places.len()
        invariant
            k <= places@.len(),
            pv == places_view(places@),
            placements_fit(parts@, pv),
            img.wf(),
            img.w() == old(img).w(),
            img.h() == old(img).h(),
            d0 == old(img)@,
            img@ == pasted_all(d0, parts@, pv.take(k as int)),
        decreases places@.len() - k,
    {
        let ghost before = img@;
        proof {
            img.lemma_grid();
        }
        assert(pv[k as int] == (places@[k as int].0@, places@[k as int].1, places@[k as int].2));
        let name = places[k].0.as_str();
        let px = places[k].1;
        let py = places[k].2;
        match parts.get(name) {
            Some(src) => {
                alpha_paste(img, src, px, py);
                proof {
                    img.lemma_grid();
                    let pw = paste_view(before, *src, px as int, py as int);
                    assert forall|j: int| 0 <= j < img.h() implies #[trigger] img@[j] =~= pw[j] by {
                        assert forall|i: int| 0 <= i < img.w() implies img@[j][i] == pw[j][i] by {}
                    }
                    assert(img@ =~= pw);
                }
            },
            None => {},
        }
        proof {
            assert(pv.take(k + 1).drop_last() =~= pv.take(k as int));
            assert(pv.take(k + 1).last() == pv[k as int]);
        }
        k = k + 1;
    }
    assert(pv.take(places@.len() as int) =~= pv);
}

/// The balloon's own line-marker image of the sample text: `markerk.png`
/// for a `balloonk` stem; `markerpNdef.png` for a `balloonp` stem, N being
/// what follows its leading `balloonp`s up to the first `def` (none
/// without a `def`); else `markers.png`.
pub open spec fn own_marker(stem: Seq<char>) -> Option<Seq<char>> {
    if starts_with(stem, "balloonk"@) {
        Some("markerk.png"@)
    } else if starts_with(stem, "balloonp"@) {
        let after = trim_prefixes(stem, "balloonp"@);
        match find_sub(after, "def"@) {
            Some(i) => Some("markerp"@ + after.take(i) + "def.png"@),
            None => None,
        }
    } else {
        Some("markers.png"@)
    }
}

/// The image that marks the second sample line of balloon `name`: its own
/// marker where that exists, else `marker.png`, else `sstp.png`.
pub open spec fn line_marker_of(sizes: Map<Seq<char>, (u32, u32)>, name: Seq<char>) -> Option<Seq<char>> {
    let own = own_marker(without_png(name));
    if own is Some && sizes.contains_key(own->0) {
        own
    } else if sizes.contains_key("marker.png"@) {
        Some("marker.png"@)
    } else if sizes.contains_key("sstp.png"@) {
        Some("sstp.png"@)
    } else {
        None
    }
}

/// The balloon's own line marker (see `own_marker`).
fn own_marker_exec(stem: &Vec<char>) -> (r: Option<String>)
    ensures
        match r {
            Some(s) => own_marker(stem@) == Some(s@),
            None => own_marker(stem@) is None,
        },
{
    if has_prefix(stem, "balloonk") {
        return Some(String::from_str("markerk.png"));
    }
    if !has_prefix(stem, "balloonp") {
        return Some(String::from_str("markers.png"));
    }
    proof {
        reveal_strlit("balloonp");
    }
    let pre = chars_of("balloonp");
    let a = trim_prefixes_at(stem, &pre);
    let def = chars_of("def");
    assert(stem@.subrange(a as int, stem.len() as int) =~= stem@.skip(a as int));
    match find_sub_in(stem, a, stem.len(), &def) {
        Some(i) => {
            let n = string_of(stem, a, i);
            assert(stem@.subrange(a as int, i as int) =~= stem@.skip(a as int).take(i - a));
            Some(concat3("markerp", n.as_str(), "def.png"))
        },
        None => None,
    }
}

/// The image that marks the second sample line (see `line_marker_of`).
pub fn line_marker(sizes: &StringHashMap<(u32, u32)>, name: &str) -> (r: Option<String>)
    ensures
        match r {
            Some(s) => line_marker_of(sizes@, name@) == Some(s@),
            None => line_marker_of(sizes@, name@) is None,
        },
{
    let stem = stem_without_png(name);
    if let Some(own) = own_marker_exec(&stem) {
        if sizes.contains_key(own.as_str()) {
            return Some(own);
        }
    }
    if sizes.contains_key("marker.png") {
        Some(String::from_str("marker.png"))
    } else if sizes.contains_key("sstp.png") {
        Some(String::from_str("sstp.png"))
    } else {
        None
    }
}

} // verus!
