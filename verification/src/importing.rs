//! Guessing the image-import dialog's choices from the name of the file
//! being imported (`balloons3.png` is balloon 3 for scope 0, and so on).
use vstd::prelude::*;
use crate::descript::str_eq;
use crate::editing::{ImportChoice, ImportView, import_name_of, scoped};
use crate::num::{int_numeral, lemma_parse_numeral, parse_range};
use crate::rows::{find_sub, find_sub_in, lemma_find_sub_after, lemma_find_sub_fits, lemma_numeral_chars, parsed_or};
use crate::text::{chars_of, ends_with, starts_with, starts_with_at, str_lowercase, string_of, to_lowercase};

verus! {

/// `s.parse::<u32>().unwrap_or(0)`.
pub open spec fn u32_or_zero(s: Seq<char>) -> u32 {
    parsed_or(s, false, 0, u32::MAX as int, 0) as u32
}

/// `s.parse::<i32>().unwrap_or(2)`.
pub open spec fn scope_or_two(s: Seq<char>) -> i32 {
    parsed_or(s, true, i32::MIN as int, i32::MAX as int, 2) as i32
}

/// An arrow direction: the `u8` in `s` (0 where there is none), at most 1.
pub open spec fn arrow_dir_of(s: Seq<char>) -> u8 {
    let n = parsed_or(s, false, 0, u8::MAX as int, 0);
    (if n < 1 {
        n
    } else {
        1
    }) as u8
}

/// A `balloonc` number: the `usize` in `s` (0 where there is none), at most 4.
pub open spec fn balloonc_id_of(s: Seq<char>) -> usize {
    let n = parsed_or(s, false, 0, usize::MAX as int, 0);
    (if n < 4 {
        n
    } else {
        4
    }) as usize
}

/// What stands before the first `def` in `s`.
pub open spec fn before_def(s: Seq<char>) -> Seq<char> {
    s.take(find_sub(s, "def"@)->0)
}

/// What follows the first `def` in `s`.
pub open spec fn after_def(s: Seq<char>) -> Seq<char> {
    s.skip(find_sub(s, "def"@)->0 + 3)
}

/// `s.strip_prefix(p).unwrap_or("2").parse().unwrap_or(2)`.
pub open spec fn scope_after(s: Seq<char>, p: Seq<char>) -> i32 {
    if starts_with(s, p) {
        scope_or_two(s.skip(p.len() as int))
    } else {
        2
    }
}

/// The scope of a `sstp_newp{n}def` stem: `n`, or 2 where it does not read.
pub open spec fn sstp_scope(s: Seq<char>) -> i32 {
    let rest = s.skip("sstp_newp"@.len() as int);
    if ends_with(rest, "def"@) {
        scope_or_two(rest.take(rest.len() - 3))
    } else {
        2
    }
}

/// A choice for one scope of a part.
pub open spec fn for_scope(p: ImportView, cat: Seq<char>, scope: i32) -> ImportView {
    ImportView { category: cat, is_scope_specific: true, scope_num: scope, ..p }
}

/// A choice for every scope of a part.
pub open spec fn for_all_scopes(p: ImportView, cat: Seq<char>) -> ImportView {
    ImportView { category: cat, is_scope_specific: false, ..p }
}

/// An input-box button image.
pub open spec fn input_button(p: ImportView, kind: Seq<char>, state: Seq<char>) -> ImportView {
    ImportView { category: "inputbtn"@, inputbtn_kind: kind, inputbtn_state: state, ..p }
}

/// The dialog's choices after reading the lower-cased stem `st` and file
/// name `fname` of an image: the name's pattern picks the category, scope,
/// number, arrow direction or button; what the pattern does not speak of
/// keeps its value from `p`. A name of no known pattern is a free file
/// kept under its own name.
pub open spec fn guessed(p: ImportView, st: Seq<char>, fname: Seq<char>) -> ImportView {
    let has_def = find_sub(st, "def"@) is Some;
    if starts_with(st, "balloons"@) {
        ImportView { target_id_num: u32_or_zero(st.skip("balloons"@.len() as int)), ..for_scope(p, "balloon"@, 0) }
    } else if starts_with(st, "balloonk"@) {
        ImportView { target_id_num: u32_or_zero(st.skip("balloonk"@.len() as int)), ..for_scope(p, "balloon"@, 1) }
    } else if starts_with(st, "balloonc"@) {
        ImportView {
            category: "balloonc"@,
            balloonc_id: balloonc_id_of(st.skip("balloonc"@.len() as int)),
            ..p
        }
    } else if starts_with(st, "balloonp"@) && has_def {
        ImportView {
            target_id_num: u32_or_zero(after_def(st)),
            ..for_scope(p, "balloon"@, scope_after(before_def(st), "balloonp"@))
        }
    } else if starts_with(st, "arrows"@) {
        ImportView { arrow_dir: arrow_dir_of(st.skip("arrows"@.len() as int)), ..for_scope(p, "arrow"@, 0) }
    } else if starts_with(st, "arrowk"@) {
        ImportView { arrow_dir: arrow_dir_of(st.skip("arrowk"@.len() as int)), ..for_scope(p, "arrow"@, 1) }
    } else if starts_with(st, "arrowp"@) && has_def {
        ImportView {
            arrow_dir: arrow_dir_of(after_def(st)),
            ..for_scope(p, "arrow"@, scope_after(before_def(st), "arrowp"@))
        }
    } else if starts_with(st, "arrow"@) {
        ImportView { arrow_dir: arrow_dir_of(st.skip("arrow"@.len() as int)), ..for_all_scopes(p, "arrow"@) }
    } else if starts_with(st, "clickwaits"@) {
        for_scope(p, "clickwait"@, 0)
    } else if starts_with(st, "clickwaitk"@) {
        for_scope(p, "clickwait"@, 1)
    } else if starts_with(st, "clickwaitp"@) && has_def {
        for_scope(p, "clickwait"@, scope_after(before_def(st), "clickwaitp"@))
    } else if st == "clickwait"@ {
        for_all_scopes(p, "clickwait"@)
    } else if starts_with(st, "markers"@) {
        for_scope(p, "marker"@, 0)
    } else if starts_with(st, "markerk"@) {
        for_scope(p, "marker"@, 1)
    } else if starts_with(st, "markerp"@) && has_def {
        for_scope(p, "marker"@, scope_after(before_def(st), "markerp"@))
    } else if st == "marker"@ {
        for_all_scopes(p, "marker"@)
    } else if st == "sstp_new"@ {
        for_scope(p, "sstp"@, 0)
    } else if st == "sstp_newk"@ {
        for_scope(p, "sstp"@, 1)
    } else if starts_with(st, "sstp_newp"@) && ends_with(st, "def"@) {
        for_scope(p, "sstp"@, sstp_scope(st))
    } else if st == "sstp"@ {
        for_all_scopes(p, "sstp"@)
    } else if starts_with(st, "online"@) {
        ImportView {
            category: "online"@,
            target_id_num: u32_or_zero(st.skip("online"@.len() as int)),
            ..p
        }
    } else if st == "thumbnail"@ {
        ImportView { category: "thumbnail"@, ..p }
    } else if starts_with(st, "ok_"@) {
        input_button(p, "ok"@, st.skip("ok_"@.len() as int))
    } else if starts_with(st, "cancel_"@) {
        input_button(p, "cancel"@, st.skip("cancel_"@.len() as int))
    } else if starts_with(st, "mode_"@) {
        input_button(p, "mode"@, st.skip("mode_"@.len() as int))
    } else {
        ImportView {
            category: "free"@,
            is_scope_specific: false,
            custom_filename: fname,
            target_id_num: 0,
            ..p
        }
    }
}

/// Where the text after `lit` starts in `v`, if `v` starts with `lit`.
fn rest_after(v: &Vec<char>, lit: &str) -> (r: Option<usize>)
    ensures
        r == (if starts_with(v@, lit@) {
            Some(lit@.len() as usize)
        } else {
            None
        }),
{
    let p = chars_of(lit);
    assert(v@.subrange(0, v@.len() as int) =~= v@);
    if starts_with_at(v, 0, v.len(), &p) {
        Some(p.len())
    } else {
        None
    }
}

/// `v[a..b]` ends with `lit`.
fn ends_with_in(v: &Vec<char>, a: usize, b: usize, lit: &str) -> (r: bool)
    requires
        a <= b <= v.len(),
    ensures
        r == ends_with(v@.subrange(a as int, b as int), lit@),
{
    let p = chars_of(lit);
    if p.len() > b - a {
        return false;
    }
    let s = starts_with_at(v, b - p.len(), b, &p);
    assert(v@.subrange(a as int, b as int).subrange(b - a - p.len(), b - a) =~= v@.subrange(b - p.len(), b as int));
    assert(v@.subrange(b - p.len(), b as int).subrange(0, p.len() as int) =~= v@.subrange(b - p.len(), b as int));
    s
}

/// `v[a..b]` read as a `u32`, 0 where it does not read.
fn u32_in(v: &Vec<char>, a: usize, b: usize) -> (r: u32)
    requires
        a <= b <= v.len(),
    ensures
        r == u32_or_zero(v@.subrange(a as int, b as int)),
{
    match parse_range(v, a, b, false, 0, u32::MAX as i128) {
        Some(x) => x as u32,
        None => 0,
    }
}

/// `v[a..b]` read as an `i32`, 2 where it does not read.
fn scope_in(v: &Vec<char>, a: usize, b: usize) -> (r: i32)
    requires
        a <= b <= v.len(),
    ensures
        r == scope_or_two(v@.subrange(a as int, b as int)),
{
    match parse_range(v, a, b, true, i32::MIN as i128, i32::MAX as i128) {
        Some(x) => x as i32,
        None => 2,
    }
}

/// `v[a..b]` read as an arrow direction.
fn arrow_in(v: &Vec<char>, a: usize, b: usize) -> (r: u8)
    requires
        a <= b <= v.len(),
    ensures
        r == arrow_dir_of(v@.subrange(a as int, b as int)),
{
    match parse_range(v, a, b, false, 0, u8::MAX as i128) {
        Some(x) => if x < 1 {
            x as u8
        } else {
            1
        },
        None => 0,
    }
}

/// `v[a..b]` read as a `balloonc` number.
fn balloonc_in(v: &Vec<char>, a: usize, b: usize) -> (r: usize)
    requires
        a <= b <= v.len(),
    ensures
        r == balloonc_id_of(v@.subrange(a as int, b as int)),
{
    match parse_range(v, a, b, false, 0, usize::MAX as i128) {
        Some(x) => if x < 4 {
            x as usize
        } else {
            4
        },
        None => 0,
    }
}

/// The scope of `v[..i]` after the prefix `lit` (see `scope_after`).
fn scope_after_in(v: &Vec<char>, i: usize, lit: &str) -> (r: i32)
    requires
        i <= v.len(),
    ensures
        r == scope_after(v@.take(i as int), lit@),
{
    let p = chars_of(lit);
    assert(v@.subrange(0, i as int) =~= v@.take(i as int));
    if starts_with_at(v, 0, i, &p) {
        assert(v@.take(i as int).skip(p.len() as int) =~= v@.subrange(p.len() as int, i as int));
        scope_in(v, p.len(), i)
    } else {
        2
    }
}

/// Sets the import dialog's choices from the lower-cased stem and file name
/// of the image to import, as `guessed` describes.
pub fn preset_import_choice(c: &mut ImportChoice, stem: &str, filename: &str)
    ensures
        final(c)@ == guessed(old(c)@, stem@, filename@),
{
    let v = chars_of(stem);
    let n = v.len();
    let d = chars_of("def");
    let def_at = find_sub_in(&v, 0, n, &d);
    proof {
        reveal_strlit("def");
        assert(v@.subrange(0, n as int) =~= v@);
        lemma_find_sub_fits(v@, "def"@);
    }
    let ghost st = v@;
    if let Some(k) = rest_after(&v, "balloons") {
        assert(v@.subrange(k as int, n as int) =~= st.skip(k as int));
        c.category = String::from_str("balloon");
        c.is_scope_specific = true;
        c.scope_num = 0;
        c.target_id_num = u32_in(&v, k, n);
    } else if let Some(k) = rest_after(&v, "balloonk") {
        assert(v@.subrange(k as int, n as int) =~= st.skip(k as int));
        c.category = String::from_str("balloon");
        c.is_scope_specific = true;
        c.scope_num = 1;
        c.target_id_num = u32_in(&v, k, n);
    } else if let Some(k) = rest_after(&v, "balloonc") {
        assert(v@.subrange(k as int, n as int) =~= st.skip(k as int));
        c.category = String::from_str("balloonc");
        c.balloonc_id = balloonc_in(&v, k, n);
    } else if rest_after(&v, "balloonp").is_some() && def_at.is_some() {
        let i = def_at.unwrap();
        assert(v@.subrange(i + 3, n as int) =~= st.skip(i + 3));
        c.category = String::from_str("balloon");
        c.is_scope_specific = true;
        c.scope_num = scope_after_in(&v, i, "balloonp");
        c.target_id_num = u32_in(&v, i + 3, n);
    } else if let Some(k) = rest_after(&v, "arrows") {
        assert(v@.subrange(k as int, n as int) =~= st.skip(k as int));
        c.category = String::from_str("arrow");
        c.is_scope_specific = true;
        c.scope_num = 0;
        c.arrow_dir = arrow_in(&v, k, n);
    } else if let Some(k) = rest_after(&v, "arrowk") {
        assert(v@.subrange(k as int, n as int) =~= st.skip(k as int));
        c.category = String::from_str("arrow");
        c.is_scope_specific = true;
        c.scope_num = 1;
        c.arrow_dir = arrow_in(&v, k, n);
    } else if rest_after(&v, "arrowp").is_some() && def_at.is_some() {
        let i = def_at.unwrap();
        assert(v@.subrange(i + 3, n as int) =~= st.skip(i + 3));
        c.category = String::from_str("arrow");
        c.is_scope_specific = true;
        c.scope_num = scope_after_in(&v, i, "arrowp");
        c.arrow_dir = arrow_in(&v, i + 3, n);
    } else if let Some(k) = rest_after(&v, "arrow") {
        assert(v@.subrange(k as int, n as int) =~= st.skip(k as int));
        c.category = String::from_str("arrow");
        c.is_scope_specific = false;
        c.arrow_dir = arrow_in(&v, k, n);
    } else if rest_after(&v, "clickwaits").is_some() {
        c.category = String::from_str("clickwait");
        c.is_scope_specific = true;
        c.scope_num = 0;
    } else if rest_after(&v, "clickwaitk").is_some() {
        c.category = String::from_str("clickwait");
        c.is_scope_specific = true;
        c.scope_num = 1;
    } else if rest_after(&v, "clickwaitp").is_some() && def_at.is_some() {
        let i = def_at.unwrap();
        c.category = String::from_str("clickwait");
        c.is_scope_specific = true;
        c.scope_num = scope_after_in(&v, i, "clickwaitp");
    } else if str_eq(stem, "clickwait") {
        c.category = String::from_str("clickwait");
        c.is_scope_specific = false;
    } else if rest_after(&v, "markers").is_some() {
        c.category = String::from_str("marker");
        c.is_scope_specific = true;
        c.scope_num = 0;
    } else if rest_after(&v, "markerk").is_some() {
        c.category = String::from_str("marker");
        c.is_scope_specific = true;
        c.scope_num = 1;
    } else if rest_after(&v, "markerp").is_some() && def_at.is_some() {
        let i = def_at.unwrap();
        c.category = String::from_str("marker");
        c.is_scope_specific = true;
        c.scope_num = scope_after_in(&v, i, "markerp");
    } else if str_eq(stem, "marker") {
        c.category = String::from_str("marker");
        c.is_scope_specific = false;
    } else if str_eq(stem, "sstp_new") {
        c.category = String::from_str("sstp");
        c.is_scope_specific = true;
        c.scope_num = 0;
    } else if str_eq(stem, "sstp_newk") {
        c.category = String::from_str("sstp");
        c.is_scope_specific = true;
        c.scope_num = 1;
    } else if rest_after(&v, "sstp_newp").is_some() && ends_with_in(&v, 0, n, "def") {
        let k = rest_after(&v, "sstp_newp").unwrap();
        let ghost rest = st.skip(k as int);
        assert(v@.subrange(k as int, n as int) =~= rest);
        let scope = if ends_with_in(&v, k, n, "def") {
            assert(v@.subrange(k as int, n - 3) =~= rest.take(rest.len() - 3));
            scope_in(&v, k, n - 3)
        } else {
            2
        };
        c.category = String::from_str("sstp");
        c.is_scope_specific = true;
        c.scope_num = scope;
    } else if str_eq(stem, "sstp") {
        c.category = String::from_str("sstp");
        c.is_scope_specific = false;
    } else if let Some(k) = rest_after(&v, "online") {
        assert(v@.subrange(k as int, n as int) =~= st.skip(k as int));
        c.category = String::from_str("online");
        c.target_id_num = u32_in(&v, k, n);
    } else if str_eq(stem, "thumbnail") {
        c.category = String::from_str("thumbnail");
    } else if let Some(k) = rest_after(&v, "ok_") {
        assert(v@.subrange(k as int, n as int) =~= st.skip(k as int));
        c.category = String::from_str("inputbtn");
        c.inputbtn_kind = String::from_str("ok");
        c.inputbtn_state = string_of(&v, k, n);
    } else if let Some(k) = rest_after(&v, "cancel_") {
        assert(v@.subrange(k as int, n as int) =~= st.skip(k as int));
        c.category = String::from_str("inputbtn");
        c.inputbtn_kind = String::from_str("cancel");
        c.inputbtn_state = string_of(&v, k, n);
    } else if let Some(k) = rest_after(&v, "mode_") {
        assert(v@.subrange(k as int, n as int) =~= st.skip(k as int));
        c.category = String::from_str("inputbtn");
        c.inputbtn_kind = String::from_str("mode");
        c.inputbtn_state = string_of(&v, k, n);
    } else {
        c.category = String::from_str("free");
        c.is_scope_specific = false;
        c.custom_filename = String::from_str(filename);
        c.target_id_num = 0;
    }
}

/// Sets the import dialog's choices from the stem and file name of the
/// image to import, both lower-cased first (see `preset_import_choice`).
pub fn preset_import_from_names(c: &mut ImportChoice, stem: &str, filename: &str)
    ensures
        final(c)@ == guessed(old(c)@, str_lowercase(stem@), str_lowercase(filename@)),
{
    let st = to_lowercase(stem);
    let f = to_lowercase(filename);
    preset_import_choice(c, st.as_str(), f.as_str());
}

/// The import choices whose file name `guessed` reads back: a known
/// category, a `balloonc` number up to 4, an arrow direction up to 1, and an
/// input button of a known kind.
pub open spec fn canonical_choice(c: ImportView) -> bool {
    let cat = c.category;
    ||| cat == "thumbnail"@
    ||| cat == "online"@
    ||| (cat == "inputbtn"@ && (c.inputbtn_kind == "ok"@ || c.inputbtn_kind == "cancel"@ || c.inputbtn_kind
        == "mode"@))
    ||| cat == "balloon"@
    ||| (cat == "balloonc"@ && c.balloonc_id <= 4)
    ||| (cat == "arrow"@ && c.arrow_dir <= 1)
    ||| cat == "clickwait"@
    ||| cat == "marker"@
    ||| cat == "sstp"@
}

/// The stem of a `.png` file name.
pub open spec fn png_stem(name: Seq<char>) -> Seq<char> {
    name.take(name.len() - 4)
}

/// A text that differs from `pre` at `i` neither starts with nor equals any
/// `lit` that starts with `pre`.
proof fn lemma_differs(s: Seq<char>, pre: Seq<char>, lit: Seq<char>, i: int)
    requires
        starts_with(lit, pre),
        0 <= i < pre.len(),
        i < s.len() ==> s[i] != pre[i],
    ensures
        !starts_with(s, lit),
        s != lit,
{
    assert(lit[i] == lit.subrange(0, pre.len() as int)[i]);
    if starts_with(s, lit) {
        assert(s[i] == s.subrange(0, lit.len() as int)[i]);
    }
}

/// `lit` starts with `pre`, for literals whose characters are known.
proof fn lemma_lit_prefix(lit: Seq<char>, pre: Seq<char>)
    requires
        pre.len() <= lit.len(),
        forall|i: int| 0 <= i < pre.len() ==> lit[i] == pre[i],
    ensures
        starts_with(lit, pre),
{
    assert(lit.subrange(0, pre.len() as int) =~= pre);
}

/// A stem that differs from `balloon` at `i` takes none of the balloon branches.
proof fn lemma_not_balloon(s: Seq<char>, i: int)
    requires
        0 <= i < 7,
        i < s.len() ==> s[i] != "balloon"@[i],
    ensures
        !starts_with(s, "balloons"@),
        !starts_with(s, "balloonk"@),
        !starts_with(s, "balloonc"@),
        !starts_with(s, "balloonp"@),
{
    reveal_strlit("balloon");
    reveal_strlit("balloons");
    reveal_strlit("balloonk");
    reveal_strlit("balloonc");
    reveal_strlit("balloonp");
    lemma_lit_prefix("balloons"@, "balloon"@);
    lemma_lit_prefix("balloonk"@, "balloon"@);
    lemma_lit_prefix("balloonc"@, "balloon"@);
    lemma_lit_prefix("balloonp"@, "balloon"@);
    lemma_differs(s, "balloon"@, "balloons"@, i);
    lemma_differs(s, "balloon"@, "balloonk"@, i);
    lemma_differs(s, "balloon"@, "balloonc"@, i);
    lemma_differs(s, "balloon"@, "balloonp"@, i);
}

/// A stem that differs from `arrow` at `i` takes none of the arrow branches.
proof fn lemma_not_arrow(s: Seq<char>, i: int)
    requires
        0 <= i < 5,
        i < s.len() ==> s[i] != "arrow"@[i],
    ensures
        !starts_with(s, "arrows"@),
        !starts_with(s, "arrowk"@),
        !starts_with(s, "arrowp"@),
        !starts_with(s, "arrow"@),
{
    reveal_strlit("arrow");
    reveal_strlit("arrows");
    reveal_strlit("arrowk");
    reveal_strlit("arrowp");
    lemma_lit_prefix("arrows"@, "arrow"@);
    lemma_lit_prefix("arrowk"@, "arrow"@);
    lemma_lit_prefix("arrowp"@, "arrow"@);
    lemma_lit_prefix("arrow"@, "arrow"@);
    lemma_differs(s, "arrow"@, "arrows"@, i);
    lemma_differs(s, "arrow"@, "arrowk"@, i);
    lemma_differs(s, "arrow"@, "arrowp"@, i);
    lemma_differs(s, "arrow"@, "arrow"@, i);
}

/// A stem that differs from `clickwait` at `i` takes none of the clickwait branches.
proof fn lemma_not_clickwait(s: Seq<char>, i: int)
    requires
        0 <= i < 9,
        i < s.len() ==> s[i] != "clickwait"@[i],
    ensures
        !starts_with(s, "clickwaits"@),
        !starts_with(s, "clickwaitk"@),
        !starts_with(s, "clickwaitp"@),
        s != "clickwait"@,
{
    reveal_strlit("clickwait");
    reveal_strlit("clickwaits");
    reveal_strlit("clickwaitk");
    reveal_strlit("clickwaitp");
    lemma_lit_prefix("clickwaits"@, "clickwait"@);
    lemma_lit_prefix("clickwaitk"@, "clickwait"@);
    lemma_lit_prefix("clickwaitp"@, "clickwait"@);
    lemma_lit_prefix("clickwait"@, "clickwait"@);
    lemma_differs(s, "clickwait"@, "clickwaits"@, i);
    lemma_differs(s, "clickwait"@, "clickwaitk"@, i);
    lemma_differs(s, "clickwait"@, "clickwaitp"@, i);
    lemma_differs(s, "clickwait"@, "clickwait"@, i);
}

/// A stem that differs from `marker` at `i` takes none of the marker branches.
proof fn lemma_not_marker(s: Seq<char>, i: int)
    requires
        0 <= i < 6,
        i < s.len() ==> s[i] != "marker"@[i],
    ensures
        !starts_with(s, "markers"@),
        !starts_with(s, "markerk"@),
        !starts_with(s, "markerp"@),
        s != "marker"@,
{
    reveal_strlit("marker");
    reveal_strlit("markers");
    reveal_strlit("markerk");
    reveal_strlit("markerp");
    lemma_lit_prefix("markers"@, "marker"@);
    lemma_lit_prefix("markerk"@, "marker"@);
    lemma_lit_prefix("markerp"@, "marker"@);
    lemma_lit_prefix("marker"@, "marker"@);
    lemma_differs(s, "marker"@, "markers"@, i);
    lemma_differs(s, "marker"@, "markerk"@, i);
    lemma_differs(s, "marker"@, "markerp"@, i);
    lemma_differs(s, "marker"@, "marker"@, i);
}

/// A stem that does not start with `s` takes none of the sstp branches.
proof fn lemma_not_sstp(s: Seq<char>)
    requires
        s.len() > 0 ==> s[0] != 's',
    ensures
        s != "sstp_new"@,
        s != "sstp_newk"@,
        !starts_with(s, "sstp_newp"@),
        s != "sstp"@,
{
    reveal_strlit("s");
    reveal_strlit("sstp_new");
    reveal_strlit("sstp_newk");
    reveal_strlit("sstp_newp");
    reveal_strlit("sstp");
    lemma_lit_prefix("sstp_new"@, "s"@);
    lemma_lit_prefix("sstp_newk"@, "s"@);
    lemma_lit_prefix("sstp_newp"@, "s"@);
    lemma_lit_prefix("sstp"@, "s"@);
    lemma_differs(s, "s"@, "sstp_new"@, 0);
    lemma_differs(s, "s"@, "sstp_newk"@, 0);
    lemma_differs(s, "s"@, "sstp_newp"@, 0);
    lemma_differs(s, "s"@, "sstp"@, 0);
}

/// A stem whose first character is none of `b`, `a`, `c`, `m`, `s` takes
/// none of the part branches.
proof fn lemma_not_part(s: Seq<char>)
    requires
        s.len() > 0,
        s[0] != 'b' && s[0] != 'a' && s[0] != 'c' && s[0] != 'm' && s[0] != 's',
    ensures
        !starts_with(s, "balloons"@),
        !starts_with(s, "balloonk"@),
        !starts_with(s, "balloonc"@),
        !starts_with(s, "balloonp"@),
        !starts_with(s, "arrows"@),
        !starts_with(s, "arrowk"@),
        !starts_with(s, "arrowp"@),
        !starts_with(s, "arrow"@),
        !starts_with(s, "clickwaits"@),
        !starts_with(s, "clickwaitk"@),
        !starts_with(s, "clickwaitp"@),
        s != "clickwait"@,
        !starts_with(s, "markers"@),
        !starts_with(s, "markerk"@),
        !starts_with(s, "markerp"@),
        s != "marker"@,
        s != "sstp_new"@,
        s != "sstp_newk"@,
        !starts_with(s, "sstp_newp"@),
        s != "sstp"@,
{
    reveal_strlit("balloon");
    reveal_strlit("arrow");
    reveal_strlit("clickwait");
    reveal_strlit("marker");
    lemma_not_balloon(s, 0);
    lemma_not_arrow(s, 0);
    lemma_not_clickwait(s, 0);
    lemma_not_marker(s, 0);
    lemma_not_sstp(s);
}

/// A text that differs from `lit` at `i` neither starts with it nor equals it.
proof fn lemma_not_at(s: Seq<char>, lit: Seq<char>, i: int)
    requires
        0 <= i < lit.len(),
        i < s.len() ==> s[i] != lit[i],
    ensures
        !starts_with(s, lit),
        s != lit,
{
    lemma_lit_prefix(lit, lit);
    lemma_differs(s, lit, lit, i);
}

/// `thumbnail.png` reads back as itself.
proof fn lemma_round_trip_thumbnail(c: ImportView, p: ImportView)
    requires
        c.category == "thumbnail"@,
    ensures
        import_name_of(guessed(p, png_stem(import_name_of(c)), import_name_of(c))) == import_name_of(c),
{
    reveal_strlit("free");
    reveal_strlit("thumbnail");
    reveal_strlit("thumbnail.png");
    reveal_strlit("online");
    let name = import_name_of(c);
    assert("thumbnail"@.len() == 9);
    assert("free"@.len() == 4);
    assert(c.category != "free"@);
    assert(name == "thumbnail.png"@);
    let st = png_stem(name);
    assert(st =~= "thumbnail"@);
    lemma_not_part(st);
    lemma_not_at(st, "online"@, 0);
}

/// `online{n}.png` reads back as itself.
proof fn lemma_round_trip_online(c: ImportView, p: ImportView)
    requires
        c.category == "online"@,
    ensures
        import_name_of(guessed(p, png_stem(import_name_of(c)), import_name_of(c))) == import_name_of(c),
{
    reveal_strlit("free");
    reveal_strlit("thumbnail");
    reveal_strlit("online");
    reveal_strlit(".png");
    let num = int_numeral(c.target_id_num as int);
    let name = import_name_of(c);
    assert(name == "online"@ + num + ".png"@);
    let st = png_stem(name);
    assert(st =~= "online"@ + num);
    lemma_not_part(st);
    assert(st.subrange(0, 6) =~= "online"@);
    assert(st.skip(6) =~= num);
    lemma_parse_numeral(c.target_id_num as int, false, 0, u32::MAX as int);
}

/// `{kind}_{state}.png` reads back as itself for the three button kinds.
proof fn lemma_round_trip_button(c: ImportView, p: ImportView)
    requires
        c.category == "inputbtn"@,
        c.inputbtn_kind == "ok"@ || c.inputbtn_kind == "cancel"@ || c.inputbtn_kind == "mode"@,
    ensures
        import_name_of(guessed(p, png_stem(import_name_of(c)), import_name_of(c))) == import_name_of(c),
{
    reveal_strlit("free");
    reveal_strlit("thumbnail");
    reveal_strlit("online");
    reveal_strlit("inputbtn");
    reveal_strlit(".png");
    reveal_strlit("_");
    reveal_strlit("ok");
    reveal_strlit("ok_");
    reveal_strlit("cancel");
    reveal_strlit("cancel_");
    reveal_strlit("mode");
    reveal_strlit("mode_");
    reveal_strlit("clickwait");
    reveal_strlit("marker");
    reveal_strlit("balloon");
    reveal_strlit("arrow");
    lemma_not_at(c.category, "free"@, 0);
    lemma_not_at(c.category, "thumbnail"@, 0);
    lemma_not_at(c.category, "online"@, 0);
    let k = c.inputbtn_kind;
    let name = import_name_of(c);
    assert(name == k + "_"@ + c.inputbtn_state + ".png"@);
    let st = png_stem(name);
    assert(st =~= k + "_"@ + c.inputbtn_state);
    assert(st[0] == k[0]);
    if k == "ok"@ {
        assert(st[0] == 'o' && st[1] == 'k');
        lemma_not_part(st);
        lemma_not_at(st, "thumbnail"@, 0);
        lemma_not_at(st, "online"@, 1);
        assert(st.subrange(0, 3) =~= "ok_"@);
        assert(st.skip(3) =~= c.inputbtn_state);
    } else if k == "cancel"@ {
        assert(st[0] == 'c' && st[1] == 'a');
        lemma_not_balloon(st, 0);
        lemma_not_arrow(st, 0);
        lemma_not_clickwait(st, 1);
        lemma_not_marker(st, 0);
        lemma_not_sstp(st);
        lemma_not_at(st, "thumbnail"@, 0);
        lemma_not_at(st, "online"@, 0);
        lemma_not_at(st, "ok_"@, 0);
        assert(st.subrange(0, 7) =~= "cancel_"@);
        assert(st.skip(7) =~= c.inputbtn_state);
    } else {
        assert(st[0] == 'm' && st[1] == 'o');
        lemma_not_balloon(st, 0);
        lemma_not_arrow(st, 0);
        lemma_not_clickwait(st, 0);
        lemma_not_marker(st, 1);
        lemma_not_sstp(st);
        lemma_not_at(st, "thumbnail"@, 0);
        lemma_not_at(st, "online"@, 0);
        lemma_not_at(st, "ok_"@, 0);
        lemma_not_at(st, "cancel_"@, 0);
        assert(st.subrange(0, 5) =~= "mode_"@);
        assert(st.skip(5) =~= c.inputbtn_state);
    }
}

/// `balloonc{n}.png` reads back as itself for `n` up to 4.
proof fn lemma_round_trip_balloonc(c: ImportView, p: ImportView)
    requires
        c.category == "balloonc"@,
        c.balloonc_id <= 4,
    ensures
        import_name_of(guessed(p, png_stem(import_name_of(c)), import_name_of(c))) == import_name_of(c),
{
    reveal_strlit("free");
    reveal_strlit("thumbnail");
    reveal_strlit("online");
    reveal_strlit("inputbtn");
    reveal_strlit("balloon");
    reveal_strlit("balloonc");
    reveal_strlit("balloons");
    reveal_strlit("balloonk");
    reveal_strlit(".png");
    reveal_strlit("arrow");
    reveal_strlit("clickwait");
    reveal_strlit("marker");
    reveal_strlit("sstp");
    lemma_not_at(c.category, "free"@, 0);
    lemma_not_at(c.category, "thumbnail"@, 0);
    lemma_not_at(c.category, "online"@, 0);
    lemma_not_at(c.category, "inputbtn"@, 0);
    assert("balloon"@.len() == 7 && "balloonc"@.len() == 8);
    assert(c.category != "balloon"@);
    let num = int_numeral(c.balloonc_id as int);
    let name = import_name_of(c);
    assert(name == "balloonc"@ + num + ".png"@);
    let st = png_stem(name);
    assert(st =~= "balloonc"@ + num);
    lemma_not_at(st, "balloons"@, 7);
    lemma_not_at(st, "balloonk"@, 7);
    assert(st.subrange(0, 8) =~= "balloonc"@);
    assert(st.skip(8) =~= num);
    lemma_parse_numeral(c.balloonc_id as int, false, 0, usize::MAX as int);
}

/// A numeral holds no `d`.
proof fn lemma_numeral_no_d(n: int)
    ensures
        forall|i: int| 0 <= i < int_numeral(n).len() ==> #[trigger] int_numeral(n)[i] != 'd',
{
    lemma_numeral_chars(n);
}

/// `pre{scope}def{tail}`: the first `def` follows the scope numeral, and the
/// scope reads back from what precedes it.
proof fn lemma_def_split(pre: Seq<char>, scope: i32, tail: Seq<char>)
    requires
        forall|i: int| 0 <= i < pre.len() ==> #[trigger] pre[i] != 'd',
    ensures
        find_sub(pre + int_numeral(scope as int) + "def"@ + tail, "def"@) is Some,
        before_def(pre + int_numeral(scope as int) + "def"@ + tail) == pre + int_numeral(scope as int),
        after_def(pre + int_numeral(scope as int) + "def"@ + tail) == tail,
        scope_after(pre + int_numeral(scope as int), pre) == scope,
{
    reveal_strlit("def");
    let snum = int_numeral(scope as int);
    let a = pre + snum;
    lemma_numeral_no_d(scope as int);
    assert forall|i: int| 0 <= i < a.len() implies a[i] != "def"@[0] by {
        if i >= pre.len() {
            assert(a[i] == snum[i - pre.len()]);
        }
    }
    lemma_find_sub_after(a, "def"@, tail);
    let st = pre + snum + "def"@ + tail;
    assert(st =~= a + "def"@ + tail);
    assert(st.take(a.len() as int) =~= a);
    assert(st.skip(a.len() + 3int) =~= tail);
    assert(a.subrange(0, pre.len() as int) =~= pre);
    assert(a.skip(pre.len() as int) =~= snum);
    lemma_parse_numeral(scope as int, true, i32::MIN as int, i32::MAX as int);
}

/// `balloon{s|k|p{n}def}{id}.png` reads back as itself.
proof fn lemma_round_trip_balloon(c: ImportView, p: ImportView)
    requires
        c.category == "balloon"@,
    ensures
        import_name_of(guessed(p, png_stem(import_name_of(c)), import_name_of(c))) == import_name_of(c),
{
    reveal_strlit("free");
    reveal_strlit("thumbnail");
    reveal_strlit("online");
    reveal_strlit("inputbtn");
    reveal_strlit("balloon");
    reveal_strlit("balloons");
    reveal_strlit("balloonk");
    reveal_strlit("balloonc");
    reveal_strlit("balloonp");
    reveal_strlit("s");
    reveal_strlit("k");
    reveal_strlit("p");
    reveal_strlit("def");
    reveal_strlit(".png");
    lemma_not_at(c.category, "free"@, 0);
    lemma_not_at(c.category, "thumbnail"@, 0);
    lemma_not_at(c.category, "online"@, 0);
    lemma_not_at(c.category, "inputbtn"@, 0);
    let tnum = int_numeral(c.target_id_num as int);
    lemma_parse_numeral(c.target_id_num as int, false, 0, u32::MAX as int);
    let name = import_name_of(c);
    assert(name == scoped("balloon"@, c.scope_num, tnum + ".png"@));
    let st = png_stem(name);
    if c.scope_num == 0 {
        assert(st =~= "balloons"@ + tnum);
        assert(st.subrange(0, 8) =~= "balloons"@);
        assert(st.skip(8) =~= tnum);
    } else if c.scope_num == 1 {
        assert(st =~= "balloonk"@ + tnum);
        lemma_not_at(st, "balloons"@, 7);
        assert(st.subrange(0, 8) =~= "balloonk"@);
        assert(st.skip(8) =~= tnum);
    } else {
        let snum = int_numeral(c.scope_num as int);
        assert(st =~= "balloonp"@ + snum + "def"@ + tnum);
        lemma_not_at(st, "balloons"@, 7);
        lemma_not_at(st, "balloonk"@, 7);
        lemma_not_at(st, "balloonc"@, 7);
        assert(st.subrange(0, 8) =~= "balloonp"@);
        lemma_def_split("balloonp"@, c.scope_num, tnum);
    }
}

/// `arrow{d}.png` and `arrow{s|k|p{n}def}{d}.png` read back as themselves
/// for a direction up to 1.
proof fn lemma_round_trip_arrow(c: ImportView, p: ImportView)
    requires
        c.category == "arrow"@,
        c.arrow_dir <= 1,
    ensures
        import_name_of(guessed(p, png_stem(import_name_of(c)), import_name_of(c))) == import_name_of(c),
{
    reveal_strlit("free");
    reveal_strlit("thumbnail");
    reveal_strlit("online");
    reveal_strlit("inputbtn");
    reveal_strlit("balloon");
    reveal_strlit("balloonc");
    reveal_strlit("arrow");
    reveal_strlit("arrows");
    reveal_strlit("arrowk");
    reveal_strlit("arrowp");
    reveal_strlit("s");
    reveal_strlit("k");
    reveal_strlit("p");
    reveal_strlit("def");
    reveal_strlit(".png");
    lemma_not_at(c.category, "free"@, 0);
    lemma_not_at(c.category, "thumbnail"@, 0);
    lemma_not_at(c.category, "online"@, 0);
    lemma_not_at(c.category, "inputbtn"@, 0);
    lemma_not_at(c.category, "balloon"@, 0);
    lemma_not_at(c.category, "balloonc"@, 0);
    let dnum = int_numeral(c.arrow_dir as int);
    lemma_parse_numeral(c.arrow_dir as int, false, 0, u8::MAX as int);
    lemma_numeral_chars(c.arrow_dir as int);
    let name = import_name_of(c);
    let st = png_stem(name);
    lemma_not_balloon(st, 0);
    if !c.is_scope_specific {
        assert(name == "arrow"@ + dnum + ".png"@);
        assert(st =~= "arrow"@ + dnum);
        assert(st[5] == dnum[0]);
        lemma_not_at(st, "arrows"@, 5);
        lemma_not_at(st, "arrowk"@, 5);
        lemma_not_at(st, "arrowp"@, 5);
        assert(st.subrange(0, 5) =~= "arrow"@);
        assert(st.skip(5) =~= dnum);
    } else {
        assert(name == scoped("arrow"@, c.scope_num, dnum + ".png"@));
        if c.scope_num == 0 {
            assert(st =~= "arrows"@ + dnum);
            assert(st.subrange(0, 6) =~= "arrows"@);
            assert(st.skip(6) =~= dnum);
        } else if c.scope_num == 1 {
            assert(st =~= "arrowk"@ + dnum);
            lemma_not_at(st, "arrows"@, 5);
            assert(st.subrange(0, 6) =~= "arrowk"@);
            assert(st.skip(6) =~= dnum);
        } else {
            let snum = int_numeral(c.scope_num as int);
            assert(st =~= "arrowp"@ + snum + "def"@ + dnum);
            lemma_not_at(st, "arrows"@, 5);
            lemma_not_at(st, "arrowk"@, 5);
            assert(st.subrange(0, 6) =~= "arrowp"@);
            lemma_def_split("arrowp"@, c.scope_num, dnum);
        }
    }
}

/// `clickwait.png` and `clickwait{s|k|p{n}def}.png` read back as themselves.
proof fn lemma_round_trip_clickwait(c: ImportView, p: ImportView)
    requires
        c.category == "clickwait"@,
    ensures
        import_name_of(guessed(p, png_stem(import_name_of(c)), import_name_of(c))) == import_name_of(c),
{
    reveal_strlit("free");
    reveal_strlit("thumbnail");
    reveal_strlit("online");
    reveal_strlit("inputbtn");
    reveal_strlit("balloon");
    reveal_strlit("balloonc");
    reveal_strlit("arrow");
    reveal_strlit("clickwait");
    reveal_strlit("clickwaits");
    reveal_strlit("clickwaitk");
    reveal_strlit("clickwaitp");
    reveal_strlit("s");
    reveal_strlit("k");
    reveal_strlit("p");
    reveal_strlit("def");
    reveal_strlit(".png");
    reveal_strlit("clickwait.png");
    lemma_not_at(c.category, "free"@, 0);
    lemma_not_at(c.category, "thumbnail"@, 0);
    lemma_not_at(c.category, "online"@, 0);
    lemma_not_at(c.category, "inputbtn"@, 0);
    lemma_not_at(c.category, "balloon"@, 0);
    lemma_not_at(c.category, "balloonc"@, 0);
    lemma_not_at(c.category, "arrow"@, 0);
    let name = import_name_of(c);
    let st = png_stem(name);
    lemma_not_balloon(st, 0);
    lemma_not_arrow(st, 0);
    if !c.is_scope_specific {
        assert(name == "clickwait.png"@);
        assert(st =~= "clickwait"@);
        assert("clickwaits"@.len() == 10 && "clickwaitk"@.len() == 10 && "clickwaitp"@.len() == 10);
    } else {
        assert(name == scoped("clickwait"@, c.scope_num, ".png"@));
        if c.scope_num == 0 {
            assert(st =~= "clickwaits"@);
            assert(st.subrange(0, 10) =~= "clickwaits"@);
        } else if c.scope_num == 1 {
            assert(st =~= "clickwaitk"@);
            lemma_not_at(st, "clickwaits"@, 9);
            assert(st.subrange(0, 10) =~= "clickwaitk"@);
        } else {
            let snum = int_numeral(c.scope_num as int);
            assert(st =~= "clickwaitp"@ + snum + "def"@ + Seq::<char>::empty());
            lemma_not_at(st, "clickwaits"@, 9);
            lemma_not_at(st, "clickwaitk"@, 9);
            assert(st.subrange(0, 10) =~= "clickwaitp"@);
            lemma_def_split("clickwaitp"@, c.scope_num, Seq::empty());
        }
    }
}

/// `marker.png` and `marker{s|k|p{n}def}.png` read back as themselves.
proof fn lemma_round_trip_marker(c: ImportView, p: ImportView)
    requires
        c.category == "marker"@,
    ensures
        import_name_of(guessed(p, png_stem(import_name_of(c)), import_name_of(c))) == import_name_of(c),
{
    reveal_strlit("free");
    reveal_strlit("thumbnail");
    reveal_strlit("online");
    reveal_strlit("inputbtn");
    reveal_strlit("balloon");
    reveal_strlit("balloonc");
    reveal_strlit("arrow");
    reveal_strlit("clickwait");
    reveal_strlit("marker");
    reveal_strlit("markers");
    reveal_strlit("markerk");
    reveal_strlit("markerp");
    reveal_strlit("s");
    reveal_strlit("k");
    reveal_strlit("p");
    reveal_strlit("def");
    reveal_strlit(".png");
    reveal_strlit("marker.png");
    lemma_not_at(c.category, "free"@, 0);
    lemma_not_at(c.category, "thumbnail"@, 0);
    lemma_not_at(c.category, "online"@, 0);
    lemma_not_at(c.category, "inputbtn"@, 0);
    lemma_not_at(c.category, "balloon"@, 0);
    lemma_not_at(c.category, "balloonc"@, 0);
    lemma_not_at(c.category, "arrow"@, 0);
    lemma_not_at(c.category, "clickwait"@, 0);
    let name = import_name_of(c);
    let st = png_stem(name);
    lemma_not_balloon(st, 0);
    lemma_not_arrow(st, 0);
    lemma_not_clickwait(st, 0);
    if !c.is_scope_specific {
        assert(name == "marker.png"@);
        assert(st =~= "marker"@);
        assert("markers"@.len() == 7 && "markerk"@.len() == 7 && "markerp"@.len() == 7);
    } else {
        assert(name == scoped("marker"@, c.scope_num, ".png"@));
        if c.scope_num == 0 {
            assert(st =~= "markers"@);
            assert(st.subrange(0, 7) =~= "markers"@);
        } else if c.scope_num == 1 {
            assert(st =~= "markerk"@);
            lemma_not_at(st, "markers"@, 6);
            assert(st.subrange(0, 7) =~= "markerk"@);
        } else {
            let snum = int_numeral(c.scope_num as int);
            assert(st =~= "markerp"@ + snum + "def"@ + Seq::<char>::empty());
            lemma_not_at(st, "markers"@, 6);
            lemma_not_at(st, "markerk"@, 6);
            assert(st.subrange(0, 7) =~= "markerp"@);
            lemma_def_split("markerp"@, c.scope_num, Seq::empty());
        }
    }
}

/// `sstp.png`, `sstp_newk.png` and `sstp_newp{n}def.png` read back as
/// themselves; `sstp_news.png` fits no pattern and is kept as a free file
/// under the same name.
proof fn lemma_round_trip_sstp(c: ImportView, p: ImportView)
    requires
        c.category == "sstp"@,
    ensures
        import_name_of(guessed(p, png_stem(import_name_of(c)), import_name_of(c))) == import_name_of(c),
{
    reveal_strlit("free");
    reveal_strlit("thumbnail");
    reveal_strlit("online");
    reveal_strlit("inputbtn");
    reveal_strlit("balloon");
    reveal_strlit("balloonc");
    reveal_strlit("arrow");
    reveal_strlit("clickwait");
    reveal_strlit("marker");
    reveal_strlit("sstp");
    reveal_strlit("sstp_new");
    reveal_strlit("sstp_newk");
    reveal_strlit("sstp_newp");
    reveal_strlit("sstp.png");
    reveal_strlit("ok_");
    reveal_strlit("cancel_");
    reveal_strlit("mode_");
    reveal_strlit("s");
    reveal_strlit("k");
    reveal_strlit("p");
    reveal_strlit("def");
    reveal_strlit(".png");
    lemma_not_at(c.category, "free"@, 0);
    lemma_not_at(c.category, "thumbnail"@, 0);
    lemma_not_at(c.category, "online"@, 0);
    lemma_not_at(c.category, "inputbtn"@, 0);
    lemma_not_at(c.category, "balloon"@, 0);
    lemma_not_at(c.category, "balloonc"@, 0);
    lemma_not_at(c.category, "arrow"@, 0);
    lemma_not_at(c.category, "clickwait"@, 0);
    lemma_not_at(c.category, "marker"@, 0);
    let name = import_name_of(c);
    let st = png_stem(name);
    lemma_not_balloon(st, 0);
    lemma_not_arrow(st, 0);
    lemma_not_clickwait(st, 0);
    lemma_not_marker(st, 0);
    assert("sstp_new"@.len() == 8 && "sstp_newk"@.len() == 9 && "sstp_newp"@.len() == 9 && "sstp"@.len() == 4);
    if !c.is_scope_specific {
        assert(name == "sstp.png"@);
        assert(st =~= "sstp"@);
        lemma_not_at(st, "sstp_newp"@, 4);
    } else {
        assert(name == scoped("sstp_new"@, c.scope_num, ".png"@));
        if c.scope_num == 0 {
            assert(st =~= "sstp_new"@ + "s"@);
            lemma_not_at(st, "sstp_newk"@, 8);
            lemma_not_at(st, "sstp_newp"@, 8);
            lemma_not_at(st, "online"@, 0);
            lemma_not_at(st, "thumbnail"@, 0);
            lemma_not_at(st, "ok_"@, 0);
            lemma_not_at(st, "cancel_"@, 0);
            lemma_not_at(st, "mode_"@, 0);
        } else if c.scope_num == 1 {
            assert(st =~= "sstp_newk"@);
        } else {
            let snum = int_numeral(c.scope_num as int);
            lemma_numeral_chars(c.scope_num as int);
            lemma_parse_numeral(c.scope_num as int, true, i32::MIN as int, i32::MAX as int);
            assert(st =~= "sstp_newp"@ + snum + "def"@);
            lemma_not_at(st, "sstp_newk"@, 8);
            assert(st.subrange(0, 9) =~= "sstp_newp"@);
            assert(st.subrange(st.len() - 3, st.len() as int) =~= "def"@);
            let rest = st.skip(9);
            assert(rest =~= snum + "def"@);
            assert(rest.subrange(rest.len() - 3, rest.len() as int) =~= "def"@);
            assert(rest.take(rest.len() - 3) =~= snum);
        }
    }
}

/// Naming an imported image, then guessing the choices back from that name,
/// names it the same again: for every choice of a known category (a
/// `balloonc` number up to 4, an arrow direction up to 1, a known button
/// kind), whatever the dialog held before the guess.
pub proof fn law_import_name_round_trip(c: ImportView, p: ImportView)
    requires
        canonical_choice(c),
    ensures
        import_name_of(guessed(p, png_stem(import_name_of(c)), import_name_of(c))) == import_name_of(c),
{
    let cat = c.category;
    if cat == "thumbnail"@ {
        lemma_round_trip_thumbnail(c, p);
    } else if cat == "online"@ {
        lemma_round_trip_online(c, p);
    } else if cat == "inputbtn"@ {
        reveal_strlit("inputbtn");
        reveal_strlit("balloon");
        reveal_strlit("balloonc");
        reveal_strlit("arrow");
        reveal_strlit("clickwait");
        reveal_strlit("marker");
        reveal_strlit("sstp");
        lemma_not_at(cat, "balloon"@, 0);
        lemma_not_at(cat, "balloonc"@, 0);
        lemma_not_at(cat, "arrow"@, 0);
        lemma_not_at(cat, "clickwait"@, 0);
        lemma_not_at(cat, "marker"@, 0);
        lemma_not_at(cat, "sstp"@, 0);
        lemma_round_trip_button(c, p);
    } else if cat == "balloon"@ {
        lemma_round_trip_balloon(c, p);
    } else if cat == "balloonc"@ {
        reveal_strlit("balloonc");
        reveal_strlit("arrow");
        reveal_strlit("clickwait");
        reveal_strlit("marker");
        reveal_strlit("sstp");
        lemma_not_at(cat, "arrow"@, 0);
        lemma_not_at(cat, "clickwait"@, 0);
        lemma_not_at(cat, "marker"@, 0);
        lemma_not_at(cat, "sstp"@, 0);
        lemma_round_trip_balloonc(c, p);
    } else if cat == "arrow"@ {
        reveal_strlit("arrow");
        reveal_strlit("clickwait");
        reveal_strlit("marker");
        reveal_strlit("sstp");
        lemma_not_at(cat, "clickwait"@, 0);
        lemma_not_at(cat, "marker"@, 0);
        lemma_not_at(cat, "sstp"@, 0);
        lemma_round_trip_arrow(c, p);
    } else if cat == "clickwait"@ {
        lemma_round_trip_clickwait(c, p);
    } else if cat == "marker"@ {
        lemma_round_trip_marker(c, p);
    } else {
        lemma_round_trip_sstp(c, p);
    }
}

/// A file named as the import dialog names images of a known category
/// (`balloons<n>`, `balloonk<n>`, `balloonp<p>def<n>`, `balloonc<n>` up to
/// 4, the arrows, `online<n>`, `thumbnail`, the input box buttons, the
/// markers): guessing the choices from its name names it the same again.
pub proof fn law_import_guess_keeps_name(name: Seq<char>, p: ImportView)
    requires
        exists|c: ImportView| canonical_choice(c) && #[trigger] import_name_of(c) == name,
    ensures
        import_name_of(guessed(p, png_stem(name), name)) == name,
{
    let c = choose|c: ImportView| canonical_choice(c) && #[trigger] import_name_of(c) == name;
    law_import_name_round_trip(c, p);
}

} // verus!
