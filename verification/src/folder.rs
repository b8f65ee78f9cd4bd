//! What the editor takes from the file list of a balloon folder: the
//! balloon images, the part images, and the balloons it lists.
use vstd::prelude::*;
use crate::fontsearch::{ext_dot, ext_of, last_dot, stem_of};
use crate::layout::{views, Layout};
use crate::naming::{flip_sources, lemma_same_multiset, make_odd_flip_sources, push_new, sort_names, sorted_by_key};
use crate::text::{chars_of, push_str, starts_with, starts_with_at, string_of};

verus! {

/// The stem of a PNG image's file name (extension exactly `png`, as
/// `Path::extension` splits it), if the name is one.
pub open spec fn png_stem(f: Seq<char>) -> Option<Seq<char>> {
    if ext_dot(f) is Some && ext_of(f) == "png"@ {
        Some(stem_of(f))
    } else {
        None
    }
}

/// The stem of a PNG image's file name (see `png_stem`).
fn png_stem_exec(name: &str) -> (r: Option<String>)
    ensures
        match r {
            Some(s) => png_stem(name@) == Some(s@),
            None => png_stem(name@) is None,
        },
{
    let v = chars_of(name);
    let mut e: usize = v.len();
    assert(v@.take(v@.len() as int) =~= v@);
    while e > 0 && v[e - 1] != '.'
        invariant
            e <= v.len(),
            v@ == name@,
            last_dot(v@) == last_dot(v@.take(e as int)),
        decreases e,
    {
        assert(v@.take(e as int).drop_last() =~= v@.take(e - 1));
        e = e - 1;
    }
    if e <= 1 {
        if e == 0 {
            assert(v@.take(0) =~= Seq::<char>::empty());
        } else {
            assert(v@.take(1).last() == v@[0]);
        }
        return None;
    }
    assert(v@.take(e as int).last() == v@[e - 1]);
    proof {
        reveal_strlit("png");
    }
    let n = v.len();
    if n - e == 3 && v[e] == 'p' && v[e + 1] == 'n' && v[e + 2] == 'g' {
        assert(v@.skip(e as int) =~= "png"@);
        let s = string_of(&v, 0, e - 1);
        assert(v@.subrange(0, e - 1) =~= v@.take(e - 1));
        Some(s)
    } else {
        proof {
            if v@.skip(e as int) == "png"@ {
                assert(v@.skip(e as int).len() == 3);
                assert(v@.skip(e as int)[0] == v@[e as int]);
                assert(v@.skip(e as int)[1] == v@[e + 1]);
                assert(v@.skip(e as int)[2] == v@[e + 2]);
            }
        }
        None
    }
}

/// `p` is a prefix of the characters `v`.
fn has_prefix(v: &Vec<char>, p: &str) -> (r: bool)
    ensures
        r == starts_with(v@, p@),
{
    let pv = chars_of(p);
    assert(v@.subrange(0, v@.len() as int) =~= v@);
    starts_with_at(v, 0, v.len(), &pv)
}

/// A balloon image's stem: it begins with `balloon`.
pub open spec fn is_balloon_stem(s: Seq<char>) -> bool {
    starts_with(s, "balloon"@)
}

/// A part image's stem: it begins with `arrow`, `marker`, `online`,
/// `sstp`, `clickwait`, `ok_`, `cancel_` or `mode_`.
pub open spec fn is_part_stem(s: Seq<char>) -> bool {
    ||| starts_with(s, "arrow"@)
    ||| starts_with(s, "marker"@)
    ||| starts_with(s, "online"@)
    ||| starts_with(s, "sstp"@)
    ||| starts_with(s, "clickwait"@)
    ||| starts_with(s, "ok_"@)
    ||| starts_with(s, "cancel_"@)
    ||| starts_with(s, "mode_"@)
}

/// The stems of the balloon PNG images among the file names, in order.
pub open spec fn balloon_stems_of(fs: Seq<Seq<char>>) -> Seq<Seq<char>>
    decreases fs.len(),
{
    if fs.len() == 0 {
        Seq::empty()
    } else {
        let rest = balloon_stems_of(fs.drop_last());
        match png_stem(fs.last()) {
            Some(s) => if is_balloon_stem(s) {
                rest.push(s)
            } else {
                rest
            },
            None => rest,
        }
    }
}

/// The names of the part PNG images among the file names, in order.
pub open spec fn part_files_of(fs: Seq<Seq<char>>) -> Seq<Seq<char>>
    decreases fs.len(),
{
    if fs.len() == 0 {
        Seq::empty()
    } else {
        let rest = part_files_of(fs.drop_last());
        match png_stem(fs.last()) {
            Some(s) => if is_part_stem(s) {
                rest.push(fs.last())
            } else {
                rest
            },
            None => rest,
        }
    }
}

/// The stems of the balloon PNG images among the file names of a folder
/// (see `balloon_stems_of`).
pub fn balloon_stems(files: &Vec<String>) -> (r: Vec<String>)
    ensures
        views(r@) == balloon_stems_of(views(files@)),
{
    let ghost fs = views(files@);
    let mut out: Vec<String> = Vec::new();
    let mut i: usize = 0;
    assert(fs.take(0) =~= Seq::<Seq<char>>::empty());
    while i < files.len()
        invariant
            i <= files.len(),
            fs == views(files@),
            views(out@) == balloon_stems_of(fs.take(i as int)),
        decreases files.len() - i,
    {
        assert(fs.take(i + 1).drop_last() =~= fs.take(i as int));
        assert(fs.take(i + 1).last() == files@[i as int]@);
        match png_stem_exec(files[i].as_str()) {
            Some(s) => {
                let sv = chars_of(s.as_str());
                if has_prefix(&sv, "balloon") {
                    let ghost o0 = views(out@);
                    out.push(s);
                    assert(views(out@) =~= o0.push(sv@));
                }
            },
            None => {},
        }
        i = i + 1;
    }
    assert(fs.take(files.len() as int) =~= fs);
    out
}

/// A part image's stem (see `is_part_stem`).
fn is_part_stem_exec(v: &Vec<char>) -> (r: bool)
    ensures
        r == is_part_stem(v@),
{
    has_prefix(v, "arrow") || has_prefix(v, "marker") || has_prefix(v, "online") || has_prefix(v, "sstp")
        || has_prefix(v, "clickwait") || has_prefix(v, "ok_") || has_prefix(v, "cancel_") || has_prefix(
        v,
        "mode_",
    )
}

/// The names of the part PNG images among the file names of a folder
/// (see `part_files_of`).
pub fn part_files(files: &Vec<String>) -> (r: Vec<String>)
    ensures
        views(r@) == part_files_of(views(files@)),
{
    let ghost fs = views(files@);
    let mut out: Vec<String> = Vec::new();
    let mut i: usize = 0;
    assert(fs.take(0) =~= Seq::<Seq<char>>::empty());
    while i < files.len()
        invariant
            i <= files.len(),
            fs == views(files@),
            views(out@) == part_files_of(fs.take(i as int)),
        decreases files.len() - i,
    {
        assert(fs.take(i + 1).drop_last() =~= fs.take(i as int));
        assert(fs.take(i + 1).last() == files@[i as int]@);
        match png_stem_exec(files[i].as_str()) {
            Some(s) => {
                let sv = chars_of(s.as_str());
                if is_part_stem_exec(&sv) {
                    let ghost o0 = views(out@);
                    let f = files[i].clone();
                    out.push(f);
                    assert(views(out@) =~= o0.push(files@[i as int]@));
                }
            },
            None => {},
        }
        i = i + 1;
    }
    assert(fs.take(files.len() as int) =~= fs);
    out
}

/// The balloons listed for a folder with a layout: those the layout
/// defines, the partners to be mirrored (see `flip_sources`), and the
/// balloon images found in the folder.
pub open spec fn listed_balloons(
    defined: Seq<Seq<char>>,
    auto_flip: bool,
    found: Seq<Seq<char>>,
) -> Set<Seq<char>> {
    defined.to_set().union(flip_sources(defined, auto_flip).dom()).union(found.to_set())
}

/// The balloon list of a folder with a layout (see `listed_balloons`),
/// `found` being the stems of its balloon images: each name once, in
/// sort-key order.
pub fn preview_balloons(layout: &Layout, auto_flip: bool, found: &Vec<String>) -> (r: Vec<String>)
    requires
        layout.wf(),
    ensures
        views(r@).no_duplicates(),
        views(r@).to_set() == listed_balloons(layout.names(), auto_flip, views(found@)),
        sorted_by_key(views(r@)),
{
    let mut all: Vec<String> = Vec::new();
    assert(views(all@) =~= Seq::<Seq<char>>::empty());
    assert(views(all@).to_set() =~= Set::<Seq<char>>::empty());
    let defined = layout.keys();
    push_new(&mut all, &defined);
    let flips = make_odd_flip_sources(layout, auto_flip);
    let targets = flips.keys();
    push_new(&mut all, &targets);
    push_new(&mut all, found);
    assert(views(all@).to_set() =~= listed_balloons(layout.names(), auto_flip, views(found@)));
    let r = sort_names(&all);
    proof {
        lemma_same_multiset(views(all@), views(r@));
    }
    r
}

/// The per-balloon settings file of the balloon `stem`: `{stem}s.txt`.
pub fn config_file_name(stem: &str) -> (r: String)
    ensures
        r@ == stem@ + "s.txt"@,
{
    let mut r = String::new();
    push_str(&mut r, stem);
    push_str(&mut r, "s.txt");
    r
}

} // verus!
