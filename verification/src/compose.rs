//! Which colour tints each layer and part image of a balloon.
use vstd::prelude::*;
use crate::color::{ColorSet, Rgb};
use crate::layout::ColorType;
use crate::raster::{apply_color_overlay, recoloured, Image};
use crate::text::{chars_of, starts_with, starts_with_at};
use crate::descript::str_eq;

verus! {

/// The colour of the colour set that tints a layer of type `t`; none for
/// an untinted layer.
pub open spec fn tint_of(t: ColorType, c: ColorSet) -> Option<Rgb> {
    match t {
        ColorType::Edge => Some(c.edge),
        ColorType::Base => Some(c.base),
        ColorType::Text => Some(c.text),
        ColorType::NoColor => None,
    }
}

/// The colour that tints a layer of type `t` (see `tint_of`).
pub fn layer_tint(t: ColorType, colors: &ColorSet) -> (r: Option<Rgb>)
    ensures
        r == tint_of(t, *colors),
{
    match t {
        ColorType::Edge => Some(colors.edge),
        ColorType::Base => Some(colors.base),
        ColorType::Text => Some(colors.text),
        ColorType::NoColor => None,
    }
}

/// A layer image as it goes into the balloon: recoloured to its tint,
/// kept as it is when untinted or when the colour set switches tinting off.
pub fn tint_layer(img: &Image, t: ColorType, colors: &ColorSet) -> (out: Image)
    requires
        img.wf(),
    ensures
        out.wf(),
        out.w() == img.w(),
        out.h() == img.h(),
        forall|x: int, y: int|
            0 <= x < img.w() && 0 <= y < img.h() ==> #[trigger] out.at(x, y) == (match tint_of(t, *colors) {
                Some(c) if !colors.no_color => recoloured(img.at(x, y), c),
                _ => img.at(x, y),
            }),
{
    match layer_tint(t, colors) {
        Some(c) => apply_color_overlay(img, c, colors.no_color),
        None => apply_color_overlay(img, Rgb(0, 0, 0), true),
    }
}

/// The `all` entry, where there is one, else `parts`.
pub open spec fn all_color(entries: Seq<(Seq<char>, Rgb)>, parts: Rgb) -> Rgb
    decreases entries.len(),
{
    if entries.len() == 0 {
        parts
    } else if entries[0].0 == "all"@ {
        entries[0].1
    } else {
        all_color(entries.drop_first(), parts)
    }
}

/// The colour entries as text and colour.
pub open spec fn entry_views(es: Seq<(String, Rgb)>) -> Seq<(Seq<char>, Rgb)> {
    es.map_values(|e: (String, Rgb)| (e.0@, e.1))
}

/// The first entry whose key is a prefix of the stem (`all` aside), in the
/// order given.
pub open spec fn prefix_match(stem: Seq<char>, es: Seq<(Seq<char>, Rgb)>) -> Option<Rgb>
    decreases es.len(),
{
    if es.len() == 0 {
        None
    } else if es[0].0 != "all"@ && starts_with(stem, es[0].0) {
        Some(es[0].1)
    } else {
        prefix_match(stem, es.drop_first())
    }
}

/// The colour of a part image: the first prefix entry that matches its
/// stem, else the `all` entry, else `parts`. `entries` are the part colours
/// in any order (a map's order of iteration; with several matching keys the
/// first in this order wins).
pub fn part_color(stem: &str, entries: &Vec<(String, Rgb)>, parts: Rgb) -> (r: Rgb)
    ensures
        r == (match prefix_match(stem@, entry_views(entries@)) {
            Some(c) => c,
            None => all_color(entry_views(entries@), parts),
        }),
{
    let sv = chars_of(stem);
    let ghost es = entry_views(entries@);
    let mut i: usize = 0;
    assert(es.skip(0) =~= es);
    while i < entries.len()
        invariant
            i <= entries.len(),
            es == entry_views(entries@),
            sv@ == stem@,
            prefix_match(stem@, es) == prefix_match(stem@, es.skip(i as int)),
        decreases entries.len() - i,
    {
        let k = chars_of(entries[i].0.as_str());
        assert(es.skip(i as int)[0] == (entries@[i as int].0@, entries@[i as int].1));
        assert(es.skip(i as int).drop_first() =~= es.skip(i + 1));
        assert(sv@.subrange(0, sv@.len() as int) =~= sv@);
        if !str_eq(entries[i].0.as_str(), "all") && starts_with_at(&sv, 0, sv.len(), &k) {
            return entries[i].1;
        }
        i = i + 1;
    }
    let mut j: usize = 0;
    assert(es.skip(entries.len() as int) =~= Seq::<(Seq<char>, Rgb)>::empty());
    assert(es.skip(0) =~= es);
    while j < entries.len()
        invariant
            j <= entries.len(),
            es == entry_views(entries@),
            prefix_match(stem@, es) is None,
            all_color(es, parts) == all_color(es.skip(j as int), parts),
        decreases entries.len() - j,
    {
        assert(es.skip(j as int)[0] == (entries@[j as int].0@, entries@[j as int].1));
        assert(es.skip(j as int).drop_first() =~= es.skip(j + 1));
        if str_eq(entries[j].0.as_str(), "all") {
            return entries[j].1;
        }
        j = j + 1;
    }
    assert(es.skip(entries.len() as int) =~= Seq::<(Seq<char>, Rgb)>::empty());
    parts
}

} // verus!
