//! What exporting a balloon decides before it writes files: which required
//! fields are missing, which folder name and readme to use, the keys forced
//! into `descript.txt`, and which other images of the project go along.
use vstd::prelude::*;
use vstd::hash_map::StringHashMap;
use crate::descript::{descript_map, lemma_models_strs, parse_descript, set_descript_value, set_value_text, str_eq, strs};
use crate::text::{chars_of, ends_with, split_lines, str_lowercase, to_lowercase, trim, trim_bounds};
use crate::descript_laws::{append_keeps_entries, law_set_keeps_clean_values, law_set_keeps_regular, law_set_then_read, lemma_clean_trim_end, lemma_plain_word, regular_for};

verus! {

/// A field that must be filled in before a balloon can be exported.
#[derive(Debug, Clone, Copy, PartialEq, Eq, Structural)]
pub enum ExportField {
    /// The balloon's `name`.
    BalloonName,
    /// The `directory` it installs into.
    InstallDirectory,
}

/// `key` is unset in `info` or set to whitespace only.
pub open spec fn field_blank(info: Map<Seq<char>, Seq<char>>, key: Seq<char>) -> bool {
    !info.contains_key(key) || trim(info[key]).len() == 0
}

/// The required fields left blank in the basic information, in the order
/// they are reported.
pub open spec fn missing_fields(info: Map<Seq<char>, Seq<char>>) -> Seq<ExportField> {
    (if field_blank(info, "name"@) {
        seq![ExportField::BalloonName]
    } else {
        Seq::empty()
    }) + (if field_blank(info, "directory"@) {
        seq![ExportField::InstallDirectory]
    } else {
        Seq::empty()
    })
}

/// Whether `s` trims to nothing.
fn is_blank(s: &str) -> (r: bool)
    ensures
        r == (trim(s@).len() == 0),
{
    let v = chars_of(s);
    let (a, b) = trim_bounds(&v, 0, v.len());
    assert(v@.subrange(0, v@.len() as int) =~= v@);
    a == b
}

/// Whether `key` is blank in `info` (see `field_blank`).
fn blank_in(info: &StringHashMap<String>, key: &str) -> (r: bool)
    ensures
        r == field_blank(strs(info@), key@),
{
    match info.get(key) {
        Some(v) => is_blank(v.as_str()),
        None => true,
    }
}

/// The required fields (name, install folder) that the basic information
/// leaves blank; export stops while any is.
pub fn missing_export_fields(info: &StringHashMap<String>) -> (r: Vec<ExportField>)
    ensures
        r@ == missing_fields(strs(info@)),
{
    let mut r: Vec<ExportField> = Vec::new();
    if blank_in(info, "name") {
        r.push(ExportField::BalloonName);
    }
    let ghost first = r@;
    if blank_in(info, "directory") {
        r.push(ExportField::InstallDirectory);
    }
    proof {
        let info_v = strs(info@);
        assert(r@ =~= missing_fields(info_v));
    }
    r
}

/// The folder name an export goes under, before it is cut down to its last
/// path component: `install.txt`'s `directory`, else `descript.txt`'s, else
/// the project folder's own name.
pub open spec fn export_dir_source(install: Seq<char>, descript: Seq<char>, folder: Seq<char>) -> Seq<char> {
    let i = descript_map(install);
    let d = descript_map(descript);
    if i.contains_key("directory"@) {
        i["directory"@]
    } else if d.contains_key("directory"@) {
        d["directory"@]
    } else {
        folder
    }
}

/// The folder name for the export (see `export_dir_source`).
pub fn export_dir_name(install_text: &str, descript_text: &str, folder_name: &str) -> (r: String)
    ensures
        r@ == export_dir_source(install_text@, descript_text@, folder_name@),
{
    let pi = parse_descript(install_text);
    let pd = parse_descript(descript_text);
    proof {
        lemma_models_strs(pi@, descript_map(install_text@));
        lemma_models_strs(pd@, descript_map(descript_text@));
    }
    match pi.get("directory") {
        Some(v) => v.clone(),
        None => match pd.get("directory") {
            Some(v) => v.clone(),
            None => String::from_str(folder_name),
        },
    }
}

/// The readme file an export copies, before it is cut down to its last path
/// component: `descript.txt`'s `readme`, else `readme.txt`.
pub open spec fn readme_source(descript: Seq<char>) -> Seq<char> {
    let d = descript_map(descript);
    if d.contains_key("readme"@) {
        d["readme"@]
    } else {
        "readme.txt"@
    }
}

/// The readme file name for the export (see `readme_source`).
pub fn readme_name(descript_text: &str) -> (r: String)
    ensures
        r@ == readme_source(descript_text@),
{
    let pd = parse_descript(descript_text);
    proof {
        lemma_models_strs(pd@, descript_map(descript_text@));
    }
    match pd.get("readme") {
        Some(v) => v.clone(),
        None => String::from_str("readme.txt"),
    }
}

/// The exported `descript.txt`: the project's text with `use_self_alpha`,
/// `use_input_alpha` and `overlay_outside_balloon` each set to `1`, in that
/// order.
pub open spec fn exported_descript(t: Seq<char>) -> Seq<char> {
    let one = "1"@;
    set_value_text(
        set_value_text(set_value_text(t, "use_self_alpha"@, one), "use_input_alpha"@, one),
        "overlay_outside_balloon"@,
        one,
    )
}

/// The `descript.txt` text that export writes (see `exported_descript`).
pub fn export_descript_text(text: &str) -> (r: String)
    ensures
        r@ == exported_descript(text@),
{
    let a = set_descript_value(text, "use_self_alpha", "1");
    let b = set_descript_value(a.as_str(), "use_input_alpha", "1");
    set_descript_value(b.as_str(), "overlay_outside_balloon", "1")
}

/// The endings of the image files that export copies along.
pub open spec fn image_endings() -> Seq<Seq<char>> {
    seq![".png"@, ".pnr"@, ".jpg"@, ".jpeg"@, ".bmp"@]
}

/// A lower-cased file name of the project folder that export copies as it
/// is: an image, not a text or `.pna` file, and not written already.
pub open spec fn extra_asset(lower: Seq<char>, written: Seq<Seq<char>>) -> bool {
    &&& !written.contains(lower)
    &&& !ends_with(lower, ".txt"@)
    &&& !ends_with(lower, ".pna"@)
    &&& exists|i: int| 0 <= i < image_endings().len() && ends_with(lower, #[trigger] image_endings()[i])
}

/// `s` ends with `p`.
fn ends_with_str(s: &Vec<char>, p: &str) -> (r: bool)
    ensures
        r == ends_with(s@, p@),
{
    let q = chars_of(p);
    if q.len() > s.len() {
        return false;
    }
    let off = s.len() - q.len();
    let mut k: usize = 0;
    while k < q.len()
        invariant
            off + q.len() == s.len(),
            q@ == p@,
            k <= q.len(),
            forall|j: int| 0 <= j < k ==> s@[off + j] == q@[j],
        decreases q.len() - k,
    {
        if s[off + k] != q[k] {
            assert(s@.subrange(off as int, s.len() as int)[k as int] == s@[off + k]);
            assert(s@.subrange(off as int, s.len() as int)[k as int] != p@[k as int]);
            return false;
        }
        k = k + 1;
    }
    assert(s@.subrange(off as int, s.len() as int) =~= q@);
    true
}

/// Whether `written` holds `name`.
fn holds(written: &Vec<String>, name: &str) -> (r: bool)
    ensures
        r == written@.map_values(|s: String| s@).contains(name@),
{
    let ghost ws = written@.map_values(|s: String| s@);
    let mut i: usize = 0;
    while i < written.len()
        invariant
            i <= written.len(),
            ws == written@.map_values(|s: String| s@),
            forall|j: int| 0 <= j < i ==> ws[j] != name@,
        decreases written.len() - i,
    {
        if str_eq(written[i].as_str(), name) {
            assert(ws[i as int] == name@);
            return true;
        }
        i = i + 1;
    }
    false
}

/// Whether export copies the project file `name` as it is, given the
/// lower-cased names it has written already (see `extra_asset`).
pub fn is_extra_asset(name: &str, written: &Vec<String>) -> (r: bool)
    ensures
        r == extra_asset(str_lowercase(name@), written@.map_values(|s: String| s@)),
{
    let lower = to_lowercase(name);
    let v = chars_of(lower.as_str());
    if holds(written, lower.as_str()) {
        return false;
    }
    if ends_with_str(&v, ".txt") || ends_with_str(&v, ".pna") {
        return false;
    }
    let png = ends_with_str(&v, ".png");
    let pnr = ends_with_str(&v, ".pnr");
    let jpg = ends_with_str(&v, ".jpg");
    let jpeg = ends_with_str(&v, ".jpeg");
    let bmp = ends_with_str(&v, ".bmp");
    proof {
        let e = image_endings();
        if png {
            assert(ends_with(v@, e[0]));
        }
        if pnr {
            assert(ends_with(v@, e[1]));
        }
        if jpg {
            assert(ends_with(v@, e[2]));
        }
        if jpeg {
            assert(ends_with(v@, e[3]));
        }
        if bmp {
            assert(ends_with(v@, e[4]));
        }
    }
    png || pnr || jpg || jpeg || bmp
}

/// Export sets the three alpha keys: reading the exported `descript.txt`
/// gives `1` for `use_self_alpha`, `use_input_alpha` and
/// `overlay_outside_balloon`; every other key reads as the project had it
/// where no key line is appended, or where the cut of trailing whitespace
/// before an appended line changes no entry (see `append_keeps_entries`).
/// This holds where each of the three keys is written only as `key,…` at
/// the start of a line.
pub proof fn law_export_sets_alpha_keys(t: Seq<char>)
    requires
        regular_for(split_lines(t), "use_self_alpha"@),
        regular_for(split_lines(t), "use_input_alpha"@),
        regular_for(split_lines(t), "overlay_outside_balloon"@),
    ensures
        descript_map(exported_descript(t)).contains_key("use_self_alpha"@),
        descript_map(exported_descript(t)).contains_key("use_input_alpha"@),
        descript_map(exported_descript(t)).contains_key("overlay_outside_balloon"@),
        descript_map(exported_descript(t))["use_self_alpha"@] == "1"@,
        descript_map(exported_descript(t))["use_input_alpha"@] == "1"@,
        descript_map(exported_descript(t))["overlay_outside_balloon"@] == "1"@,
        append_keeps_entries(t, "use_self_alpha"@, "1"@) && append_keeps_entries(
            set_value_text(t, "use_self_alpha"@, "1"@),
            "use_input_alpha"@,
            "1"@,
        ) && append_keeps_entries(
            set_value_text(set_value_text(t, "use_self_alpha"@, "1"@), "use_input_alpha"@, "1"@),
            "overlay_outside_balloon"@,
            "1"@,
        ) ==> descript_map(exported_descript(t)) == descript_map(t).insert("use_self_alpha"@, "1"@).insert(
            "use_input_alpha"@,
            "1"@,
        ).insert("overlay_outside_balloon"@, "1"@),
{
    reveal_strlit("use_self_alpha");
    reveal_strlit("use_input_alpha");
    reveal_strlit("overlay_outside_balloon");
    reveal_strlit("1");
    let k1 = "use_self_alpha"@;
    let k2 = "use_input_alpha"@;
    let k3 = "overlay_outside_balloon"@;
    let one = "1"@;
    lemma_plain_word(k1);
    lemma_plain_word(k2);
    lemma_plain_word(k3);
    lemma_plain_word(one);
    lemma_clean_trim_end(one);
    assert(k1 != k2 && k1 != k3 && k2 != k3) by {
        assert(k1.len() != k2.len() && k1.len() != k3.len() && k2.len() != k3.len());
    }
    let t1 = set_value_text(t, k1, one);
    let t2 = set_value_text(t1, k2, one);
    law_set_then_read(t, k1, one);
    law_set_keeps_regular(t, k1, one, k2);
    law_set_keeps_regular(t, k1, one, k3);
    law_set_then_read(t1, k2, one);
    law_set_keeps_clean_values(t1, k2, one, k1);
    law_set_keeps_regular(t1, k2, one, k3);
    law_set_then_read(t2, k3, one);
    law_set_keeps_clean_values(t2, k3, one, k1);
    law_set_keeps_clean_values(t2, k3, one, k2);
}

} // verus!
