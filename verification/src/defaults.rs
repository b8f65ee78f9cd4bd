//! Default positions of the parts that depend on the sizes of the part
//! images: each marker sits a few pixels in from the right or bottom edge,
//! by its own size; the online marker is centred at the bottom.
use vstd::prelude::*;
use vstd::hash_map::StringHashMap;
use crate::descript::strs;
use crate::num::{int_numeral, int_to_string, nat_to_string};
use crate::text::push_str;

verus! {

/// `-{n}`, a position counted from the far edge.
pub open spec fn from_far(n: int) -> Seq<char> {
    seq!['-'] + int_numeral(n)
}

/// `x / 2` rounded toward zero, as integer division does.
pub open spec fn half_toward_zero(x: int) -> int {
    if x >= 0 {
        x / 2
    } else {
        -((-x) / 2)
    }
}

/// The size of part image `name`, if there is one.
pub open spec fn size_of(parts: Map<Seq<char>, (u32, u32)>, name: Seq<char>) -> Option<(u32, u32)> {
    if parts.contains_key(name) {
        Some(parts[name])
    } else {
        None
    }
}

/// The defaults the part sizes give: `arrow0.x` 5 pixels in from the
/// right by the arrow's width; `arrow1.x/y` likewise from the right and the
/// bottom; the click-wait marker 10 pixels in by its size, or where
/// `arrow1` is without its own image; the SSTP marker 5 pixels up from
/// the bottom by its height (`sstp_new.png`, else `sstp.png`); the online
/// marker centred at the bottom of the balloon.
pub open spec fn dynamic_defaults_of(parts: Map<Seq<char>, (u32, u32)>, balloon: Option<(u32, u32)>) -> Map<
    Seq<char>,
    Seq<char>,
> {
    let m1 = match size_of(parts, "arrow0.png"@) {
        Some(s) => Map::empty().insert("arrow0.x"@, from_far(5 + s.0)),
        None => Map::empty(),
    };
    let m2 = match size_of(parts, "arrow1.png"@) {
        Some(s) => m1.insert("arrow1.x"@, from_far(5 + s.0)).insert("arrow1.y"@, from_far(5 + s.1)),
        None => m1,
    };
    let m3 = match size_of(parts, "clickwait.png"@) {
        Some(s) => m2.insert("clickwaitmarker.x"@, from_far(10 + s.0)).insert("clickwaitmarker.y"@, from_far(10 + s.1)),
        None => {
            let a = if m2.contains_key("arrow1.x"@) {
                m2.insert("clickwaitmarker.x"@, m2["arrow1.x"@])
            } else {
                m2
            };
            if a.contains_key("arrow1.y"@) {
                a.insert("clickwaitmarker.y"@, a["arrow1.y"@])
            } else {
                a
            }
        },
    };
    let sstp = match size_of(parts, "sstp_new.png"@) {
        Some(s) => Some(s),
        None => size_of(parts, "sstp.png"@),
    };
    let m4 = match sstp {
        Some(s) => m3.insert("sstpmarker.y"@, from_far(5 + s.1)),
        None => m3,
    };
    match (size_of(parts, "online0.png"@), balloon) {
        (Some(o), Some(b)) => m4.insert("onlinemarker.x"@, int_numeral(half_toward_zero(b.0 - o.0))).insert(
            "onlinemarker.y"@,
            int_numeral(b.1 - o.1),
        ),
        _ => m4,
    }
}

/// The part sizes stay within the arithmetic the defaults are computed in.
pub open spec fn sizes_ok(parts: Map<Seq<char>, (u32, u32)>, balloon: Option<(u32, u32)>) -> bool {
    &&& forall|k: Seq<char>| #[trigger] parts.contains_key(k) ==> parts[k].0 <= i32::MAX && parts[k].1 <= i32::MAX
    &&& match balloon {
        Some(b) => b.0 <= i32::MAX && b.1 <= i32::MAX,
        None => true,
    }
}

/// `-{n}`.
pub(crate) fn from_far_exec(n: u64) -> (s: String)
    ensures
        s@ == from_far(n as int),
{
    let mut s = String::new();
    push_str(&mut s, "-");
    let d = nat_to_string(n);
    push_str(&mut s, d.as_str());
    proof {
        reveal_strlit("-");
    }
    assert(s@ =~= seq!['-'] + int_numeral(n as int));
    s
}

/// The size of part image `name`, if there is one.
pub(crate) fn size_exec(parts: &StringHashMap<(u32, u32)>, name: &str) -> (r: Option<(u32, u32)>)
    ensures
        r == size_of(parts@, name@),
{
    match parts.get(name) {
        Some(s) => Some(*s),
        None => None,
    }
}

/// The defaults the part sizes give (see `dynamic_defaults_of`). `parts`
/// maps part image names to their sizes; `balloon` is the size of the
/// first balloon of the preview list, if it has an image.
pub fn rebuild_dynamic_defaults(parts: &StringHashMap<(u32, u32)>, balloon: Option<(u32, u32)>) -> (r: StringHashMap<
    String,
>)
    requires
        sizes_ok(parts@, balloon),
    ensures
        strs(r@) == dynamic_defaults_of(parts@, balloon),
{
    let mut d: StringHashMap<String> = StringHashMap::new();
    let ghost m0 = strs(d@);
    assert(m0 =~= Map::<Seq<char>, Seq<char>>::empty());
    if let Some((aw, _)) = size_exec(parts, "arrow0.png") {
        d.insert(String::from_str("arrow0.x"), from_far_exec(5 + aw as u64));
    }
    proof {
        assert(strs(d@) =~= (match size_of(parts@, "arrow0.png"@) {
            Some(s) => Map::empty().insert("arrow0.x"@, from_far(5 + s.0)),
            None => Map::<Seq<char>, Seq<char>>::empty(),
        }));
    }
    let ghost m1 = strs(d@);
    if let Some((aw, ah)) = size_exec(parts, "arrow1.png") {
        d.insert(String::from_str("arrow1.x"), from_far_exec(5 + aw as u64));
        d.insert(String::from_str("arrow1.y"), from_far_exec(5 + ah as u64));
        assert(strs(d@) =~= m1.insert("arrow1.x"@, from_far(5 + aw)).insert("arrow1.y"@, from_far(5 + ah)));
    }
    let ghost m2 = strs(d@);
    if let Some((cw, ch)) = size_exec(parts, "clickwait.png") {
        d.insert(String::from_str("clickwaitmarker.x"), from_far_exec(10 + cw as u64));
        d.insert(String::from_str("clickwaitmarker.y"), from_far_exec(10 + ch as u64));
        assert(strs(d@) =~= m2.insert("clickwaitmarker.x"@, from_far(10 + cw)).insert(
            "clickwaitmarker.y"@,
            from_far(10 + ch),
        ));
    } else {
        let x = match d.get("arrow1.x") {
            Some(v) => Some(v.clone()),
            None => None,
        };
        if let Some(v) = x {
            d.insert(String::from_str("clickwaitmarker.x"), v);
            assert(strs(d@) =~= m2.insert("clickwaitmarker.x"@, m2["arrow1.x"@]));
        }
        let ghost a = strs(d@);
        let y = match d.get("arrow1.y") {
            Some(v) => Some(v.clone()),
            None => None,
        };
        if let Some(v) = y {
            d.insert(String::from_str("clickwaitmarker.y"), v);
            assert(strs(d@) =~= a.insert("clickwaitmarker.y"@, a["arrow1.y"@]));
        }
    }
    let ghost m3 = strs(d@);
    let sstp = match size_exec(parts, "sstp_new.png") {
        Some(s) => Some(s),
        None => size_exec(parts, "sstp.png"),
    };
    if let Some((_, sh)) = sstp {
        d.insert(String::from_str("sstpmarker.y"), from_far_exec(5 + sh as u64));
        assert(strs(d@) =~= m3.insert("sstpmarker.y"@, from_far(5 + sh)));
    }
    let ghost m4 = strs(d@);
    match (size_exec(parts, "online0.png"), balloon) {
        (Some((ow, oh)), Some((iw, ih))) => {
            assert(parts@.contains_key("online0.png"@));
            let diff = iw as i32 - ow as i32;
            let x = if diff >= 0 {
                diff / 2
            } else {
                -((-diff) / 2)
            };
            let y = ih as i32 - oh as i32;
            assert(x as int == half_toward_zero(iw - ow));
            d.insert(String::from_str("onlinemarker.x"), int_to_string(x as i64));
            d.insert(String::from_str("onlinemarker.y"), int_to_string(y as i64));
            assert(strs(d@) =~= m4.insert("onlinemarker.x"@, int_numeral(half_toward_zero(iw - ow))).insert(
                "onlinemarker.y"@,
                int_numeral(ih - oh),
            ));
        },
        _ => {},
    }
    d
}

} // verus!
