//! Edits the editor makes to the project's text files when balloons are
//! renamed or deleted, the file names it gives imported images, and the
//! basic information it reads from `descript.txt` and `install.txt`.
use vstd::prelude::*;
use vstd::hash_map::StringHashMap;
use crate::descript::{comment_mark, descript_map, lemma_models_strs, next_line, parse_descript, set_descript_value, set_value_text, str_eq, strs};
use crate::layout::{split_by, views};
use crate::num::{int_numeral, int_to_string, nat_to_string};
use crate::rows::{find_sub, find_sub_in};
use crate::text::{
    chars_of, ends_with, find_char, find_char_in, join, lemma_find_char, push_str, split_lines,
    starts_with, starts_with_at, string_of, trim, trim_bounds,
};

verus! {

/// A line as the comment-out edit leaves it: a definition line of `name`
/// (its trimmed text starts with `name,`, and it is no comment) gets `//` in front.
pub open spec fn commented_line(line: Seq<char>, name: Seq<char>) -> Seq<char> {
    let t = trim(line);
    if !starts_with(t, comment_mark()) && starts_with(t, name.push(',')) {
        comment_mark() + line
    } else {
        line
    }
}

/// Lines joined by line feeds, each ended by one; no text for no lines.
pub open spec fn lines_text(ls: Seq<Seq<char>>) -> Seq<char> {
    if ls.len() == 0 {
        Seq::empty()
    } else {
        join(ls, "\n"@) + "\n"@
    }
}

/// Appends `line` to `out`, a line feed first unless it is the first line.
fn push_line(out: &mut String, line: &str, first: bool, Ghost(done): Ghost<Seq<Seq<char>>>)
    requires
        old(out)@ == join(done, "\n"@),
        first == (done.len() == 0),
    ensures
        final(out)@ == join(done.push(line@), "\n"@),
{
    let ghost prev = out@;
    if !first {
        push_str(out, "\n");
    }
    push_str(out, line);
    proof {
        let d = done.push(line@);
        assert(d.drop_last() =~= done);
        if first {
            assert(out@ =~= d[0]);
        } else {
            assert(out@ =~= prev + "\n"@ + d.last());
        }
    }
}

/// Whether the trimmed line `v[s..e]` is a comment.
fn is_comment_at(v: &Vec<char>, s: usize, e: usize) -> (r: bool)
    requires
        s <= e <= v.len(),
    ensures
        r == starts_with(v@.subrange(s as int, e as int), comment_mark()),
{
    let ghost t = v@.subrange(s as int, e as int);
    if e - s >= 2 && v[s] == '/' && v[s + 1] == '/' {
        assert(t.subrange(0, 2) =~= comment_mark());
        true
    } else {
        proof {
            if starts_with(t, comment_mark()) {
                assert(t.subrange(0, 2)[0] == '/');
                assert(t.subrange(0, 2)[1] == '/');
            }
        }
        false
    }
}

/// Comments out the definition lines of a balloon in `slbe_files.txt`
/// text (see `commented_line`); the text is rewritten line by line.
pub fn comment_out_balloon_in_files_txt(text: &str, balloon_name: &str) -> (r: String)
    ensures
        r@ == lines_text(split_lines(text@).map_values(|l: Seq<char>| commented_line(l, balloon_name@))),
{
    let v = chars_of(text);
    let mut prefix = String::from_str(balloon_name);
    push_str(&mut prefix, ",");
    let pv = chars_of(prefix.as_str());
    proof {
        reveal_strlit(",");
    }
    assert(pv@ =~= balloon_name@.push(','));
    let mut out = String::new();
    let mut pos: usize = 0;
    let mut count: usize = 0;
    let ghost mut done: Seq<Seq<char>> = Seq::empty();
    let ghost ls = split_lines(text@);
    assert(v@.subrange(0, v.len() as int) =~= v@);
    while pos < v.len()
        invariant
            pos <= v.len(),
            count == done.len() <= pos,
            v@ == text@,
            pv@ == balloon_name@.push(','),
            ls == split_lines(v@),
            ls == done + split_lines(v@.subrange(pos as int, v.len() as int)),
            out@ == join(done.map_values(|l: Seq<char>| commented_line(l, balloon_name@)), "\n"@),
        decreases v.len() - pos,
    {
        let (a, b, next) = next_line(&v, pos);
        let ghost line = v@.subrange(a as int, b as int);
        proof {
            assert(done + split_lines(v@.subrange(pos as int, v.len() as int)) =~= done.push(line)
                + split_lines(v@.subrange(next as int, v.len() as int)));
        }
        let (s, e) = trim_bounds(&v, a, b);
        let mut l = String::new();
        if !is_comment_at(&v, s, e) && starts_with_at(&v, s, e, &pv) {
            push_str(&mut l, "//");
        }
        let raw = string_of(&v, a, b);
        push_str(&mut l, raw.as_str());
        proof {
            reveal_strlit("//");
            assert("//"@ =~= comment_mark());
            assert(l@ =~= commented_line(line, balloon_name@));
        }
        let ghost md = done.map_values(|x: Seq<char>| commented_line(x, balloon_name@));
        push_line(&mut out, l.as_str(), count == 0, Ghost(md));
        proof {
            assert(done.push(line).map_values(|x: Seq<char>| commented_line(x, balloon_name@)) =~= md.push(l@));
            done = done.push(line);
        }
        count = count + 1;
        pos = next;
    }
    assert(v@.subrange(v.len() as int, v.len() as int).len() == 0);
    assert(done =~= ls);
    if count == 0 {
        assert(ls.map_values(|l: Seq<char>| commented_line(l, balloon_name@)).len() == 0);
        return String::new();
    }
    push_str(&mut out, "\n");
    out
}

/// The balloon name a definition line gives: its first comma-separated
/// field, trimmed; none for a comment or blank line.
pub open spec fn defined_name(line: Seq<char>) -> Option<Seq<char>> {
    let t = trim(line);
    if starts_with(t, comment_mark()) || t.len() == 0 {
        None
    } else {
        Some(trim(split_by(t, ',')[0]))
    }
}

/// The balloon name the line `v[a..b]` defines (see `defined_name`).
fn defined_name_at(v: &Vec<char>, a: usize, b: usize) -> (r: Option<String>)
    requires
        a <= b <= v.len(),
    ensures
        match r {
            Some(n) => defined_name(v@.subrange(a as int, b as int)) == Some(n@),
            None => defined_name(v@.subrange(a as int, b as int)) is None,
        },
{
    let (s, e) = trim_bounds(v, a, b);
    let ghost t = v@.subrange(s as int, e as int);
    if is_comment_at(v, s, e) || s == e {
        return None;
    }
    proof {
        lemma_find_char(t, ',');
    }
    let end = match find_char_in(v, s, e, ',') {
        Some(c) => {
            assert(split_by(t, ',')[0] == t.take(c - s));
            assert(t.take(c - s) =~= v@.subrange(s as int, c as int));
            c
        },
        None => e,
    };
    let (na, nb) = trim_bounds(v, s, end);
    Some(string_of(v, na, nb))
}

/// Whether a line of `slbe_files.txt` text defines the balloon `stem`.
pub open spec fn defines(line: Seq<char>, stem: Seq<char>) -> bool {
    defined_name(line) == Some(stem)
}

/// The lines of `slbe_files.txt` text that do not define `stem`.
pub open spec fn lines_without(ls: Seq<Seq<char>>, stem: Seq<char>) -> Seq<Seq<char>>
    decreases ls.len(),
{
    if ls.len() == 0 {
        Seq::empty()
    } else {
        let r = lines_without(ls.drop_last(), stem);
        if defines(ls.last(), stem) {
            r
        } else {
            r.push(ls.last())
        }
    }
}

/// `slbe_files.txt` text with the definition lines of `stem` removed (see
/// `lines_without`); the rest joined by line feeds and ended by one. An
/// empty text stays empty.
pub fn remove_balloon_lines(text: &str, stem: &str) -> (r: String)
    ensures
        r@ == (if text@.len() == 0 {
            Seq::empty()
        } else {
            join(lines_without(split_lines(text@), stem@), "\n"@) + "\n"@
        }),
{
    let v = chars_of(text);
    if v.len() == 0 {
        return String::new();
    }
    let mut out = String::new();
    let mut kept: usize = 0;
    let mut pos: usize = 0;
    let ghost mut done: Seq<Seq<char>> = Seq::empty();
    let ghost ls = split_lines(text@);
    assert(v@.subrange(0, v.len() as int) =~= v@);
    while pos < v.len()
        invariant
            pos <= v.len(),
            v@ == text@,
            ls == split_lines(v@),
            ls == done + split_lines(v@.subrange(pos as int, v.len() as int)),
            kept == lines_without(done, stem@).len(),
            kept <= done.len() <= pos,
            out@ == join(lines_without(done, stem@), "\n"@),
        decreases v.len() - pos,
    {
        let (a, b, next) = next_line(&v, pos);
        let ghost line = v@.subrange(a as int, b as int);
        proof {
            assert(done + split_lines(v@.subrange(pos as int, v.len() as int)) =~= done.push(line)
                + split_lines(v@.subrange(next as int, v.len() as int)));
            assert(done.push(line).drop_last() =~= done);
        }
        let drop = match defined_name_at(&v, a, b) {
            Some(n) => str_eq(n.as_str(), stem),
            None => false,
        };
        if !drop {
            let raw = string_of(&v, a, b);
            push_line(&mut out, raw.as_str(), kept == 0, Ghost(lines_without(done, stem@)));
            kept = kept + 1;
        }
        proof {
            done = done.push(line);
        }
        pos = next;
    }
    assert(v@.subrange(v.len() as int, v.len() as int).len() == 0);
    assert(done =~= ls);
    push_str(&mut out, "\n");
    out
}

/// Whether `slbe_files.txt` text has a definition line for `stem`.
pub fn defined_in_files_txt(text: &str, stem: &str) -> (r: bool)
    ensures
        r == exists|i: int| 0 <= i < split_lines(text@).len() && #[trigger] defines(split_lines(text@)[i], stem@),
{
    let v = chars_of(text);
    let mut pos: usize = 0;
    let ghost mut done: Seq<Seq<char>> = Seq::empty();
    let ghost ls = split_lines(text@);
    assert(v@.subrange(0, v.len() as int) =~= v@);
    while pos < v.len()
        invariant
            pos <= v.len(),
            v@ == text@,
            ls == split_lines(v@),
            ls == done + split_lines(v@.subrange(pos as int, v.len() as int)),
            forall|i: int| 0 <= i < done.len() ==> !defines(#[trigger] done[i], stem@),
        decreases v.len() - pos,
    {
        let (a, b, next) = next_line(&v, pos);
        let ghost line = v@.subrange(a as int, b as int);
        proof {
            assert(done + split_lines(v@.subrange(pos as int, v.len() as int)) =~= done.push(line)
                + split_lines(v@.subrange(next as int, v.len() as int)));
            assert(ls[done.len() as int] == line);
        }
        match defined_name_at(&v, a, b) {
            Some(n) => {
                if str_eq(n.as_str(), stem) {
                    assert(defines(ls[done.len() as int], stem@));
                    return true;
                }
            },
            None => {},
        }
        proof {
            done = done.push(line);
        }
        pos = next;
    }
    assert(v@.subrange(v.len() as int, v.len() as int).len() == 0);
    assert(done =~= ls);
    false
}

/// Whether a balloon can have its own settings file: a `balloonc`,
/// `balloonk`, `balloons` name, or a `balloonp` name holding `def`.
pub open spec fn individual_config_allowed(name: Seq<char>) -> bool {
    name.len() > 0 && (starts_with(name, "balloonc"@) || starts_with(name, "balloonk"@) || starts_with(
        name,
        "balloons"@,
    ) || (starts_with(name, "balloonp"@) && find_sub(name, "def"@) is Some))
}

/// Whether `v` starts with the text `p`.
fn starts_str(v: &Vec<char>, p: &str) -> (r: bool)
    ensures
        r == starts_with(v@, p@),
{
    let pv = chars_of(p);
    assert(v@.subrange(0, v.len() as int) =~= v@);
    starts_with_at(v, 0, v.len(), &pv)
}

/// Whether a balloon can have its own settings file (see `individual_config_allowed`).
pub fn can_have_individual_config(balloon_name: &str) -> (r: bool)
    ensures
        r == individual_config_allowed(balloon_name@),
{
    let v = chars_of(balloon_name);
    if v.len() == 0 {
        return false;
    }
    if starts_str(&v, "balloonc") || starts_str(&v, "balloonk") || starts_str(&v, "balloons") {
        return true;
    }
    if starts_str(&v, "balloonp") {
        let d = chars_of("def");
        assert(v@.subrange(0, v.len() as int) =~= v@);
        return match find_sub_in(&v, 0, v.len(), &d) {
            Some(_) => true,
            None => false,
        };
    }
    false
}

/// A name with every trailing `.png` removed (`trim_end_matches`).
pub open spec fn without_png(s: Seq<char>) -> Seq<char>
    decreases s.len(),
{
    if s.len() >= 4 && ends_with(s, ".png"@) {
        without_png(s.take(s.len() - 4))
    } else {
        s
    }
}

/// Whether the selected balloon (a file name) is an input-box balloon `balloonc…`.
pub fn is_balloonc(selected: &str) -> (r: bool)
    ensures
        r == starts_with(without_png(selected@), "balloonc"@),
{
    proof {
        reveal_strlit(".png");
    }
    let v = chars_of(selected);
    let dot_png = chars_of(".png");
    let mut end = v.len();
    assert(v@.take(v.len() as int) =~= v@);
    assert(".png"@.len() == 4);
    while end >= 4 && starts_with_at(&v, end - 4, end, &dot_png)
        invariant
            end <= v.len(),
            dot_png@ == ".png"@,
            ".png"@.len() == 4,
            without_png(v@.take(end as int)) == without_png(v@),
        decreases end,
    {
        proof {
            let s = v@.take(end as int);
            assert(s.subrange(s.len() - 4, s.len() as int) =~= v@.subrange(end - 4, end as int));
            assert(v@.subrange(end - 4, end as int).subrange(0, 4) =~= v@.subrange(end - 4, end as int));
            assert(s.take(s.len() - 4) =~= v@.take(end - 4));
        }
        end = end - 4;
    }
    proof {
        let s = v@.take(end as int);
        if s.len() >= 4 && ends_with(s, ".png"@) {
            assert(s.subrange(s.len() - 4, s.len() as int) =~= v@.subrange(end - 4, end as int));
            assert(v@.subrange(end - 4, end as int).subrange(0, 4) =~= v@.subrange(end - 4, end as int));
        }
        assert(v@.take(v.len() as int) =~= v@);
    }
    let p = chars_of("balloonc");
    let r = starts_with_at(&v, 0, end, &p);
    assert(v@.subrange(0, end as int) =~= v@.take(end as int));
    r
}

/// The install folder name a descript text gives (`directory`), none for an empty text.
pub fn get_install_directory_name(descript_text: &str) -> (r: Option<String>)
    ensures
        match r {
            Some(d) => descript_text@.len() > 0 && descript_map(descript_text@).contains_key("directory"@)
                && d@ == descript_map(descript_text@)["directory"@],
            None => descript_text@.len() == 0 || !descript_map(descript_text@).contains_key("directory"@),
        },
{
    if descript_text.is_empty() {
        return None;
    }
    let parsed = parse_descript(descript_text);
    proof {
        lemma_models_strs(parsed@, descript_map(descript_text@));
    }
    match parsed.get("directory") {
        Some(d) => Some(d.clone()),
        None => None,
    }
}

/// What the image-import dialog has chosen.
pub struct ImportChoice {
    /// `free`, `thumbnail`, `online`, `inputbtn`, `balloon`, `balloonc`,
    /// `arrow`, `clickwait`, `marker`, `sstp`.
    pub category: String,
    /// Whether the image is for one scope only.
    pub is_scope_specific: bool,
    pub scope_num: i32,
    pub target_id_num: u32,
    pub arrow_dir: u8,
    pub balloonc_id: usize,
    pub inputbtn_kind: String,
    pub inputbtn_state: String,
    pub custom_filename: String,
}

/// An `ImportChoice` with its strings as character sequences.
pub struct ImportView {
    pub category: Seq<char>,
    pub is_scope_specific: bool,
    pub scope_num: i32,
    pub target_id_num: u32,
    pub arrow_dir: u8,
    pub balloonc_id: usize,
    pub inputbtn_kind: Seq<char>,
    pub inputbtn_state: Seq<char>,
    pub custom_filename: Seq<char>,
}

impl View for ImportChoice {
    type V = ImportView;

    open spec fn view(&self) -> ImportView {
        ImportView {
            category: self.category@,
            is_scope_specific: self.is_scope_specific,
            scope_num: self.scope_num,
            target_id_num: self.target_id_num,
            arrow_dir: self.arrow_dir,
            balloonc_id: self.balloonc_id,
            inputbtn_kind: self.inputbtn_kind@,
            inputbtn_state: self.inputbtn_state@,
            custom_filename: self.custom_filename@,
        }
    }
}

/// `{stem}` + the scope part + `.png` for a scope-specific part image:
/// `s` for scope 0, `k` for scope 1, `p{scope}def` otherwise.
pub open spec fn scoped(stem: Seq<char>, scope: i32, tail: Seq<char>) -> Seq<char> {
    if scope == 0 {
        stem + "s"@ + tail
    } else if scope == 1 {
        stem + "k"@ + tail
    } else {
        stem + "p"@ + int_numeral(scope as int) + "def"@ + tail
    }
}

/// The file name an imported image is saved under.
pub open spec fn import_file_name(c: ImportChoice) -> Seq<char> {
    import_name_of(c@)
}

/// The file name for an import choice.
pub open spec fn import_name_of(c: ImportView) -> Seq<char> {
    let cat = c.category;
    let spec_ = c.is_scope_specific;
    let scope = c.scope_num;
    if cat == "free"@ {
        c.custom_filename
    } else if cat == "thumbnail"@ {
        "thumbnail.png"@
    } else if cat == "online"@ {
        "online"@ + int_numeral(c.target_id_num as int) + ".png"@
    } else if cat == "inputbtn"@ {
        c.inputbtn_kind + "_"@ + c.inputbtn_state + ".png"@
    } else if cat == "balloon"@ {
        scoped("balloon"@, scope, int_numeral(c.target_id_num as int) + ".png"@)
    } else if cat == "balloonc"@ {
        "balloonc"@ + int_numeral(c.balloonc_id as int) + ".png"@
    } else if cat == "arrow"@ {
        if !spec_ {
            "arrow"@ + int_numeral(c.arrow_dir as int) + ".png"@
        } else {
            scoped("arrow"@, scope, int_numeral(c.arrow_dir as int) + ".png"@)
        }
    } else if cat == "clickwait"@ {
        if !spec_ {
            "clickwait.png"@
        } else {
            scoped("clickwait"@, scope, ".png"@)
        }
    } else if cat == "marker"@ {
        if !spec_ {
            "marker.png"@
        } else {
            scoped("marker"@, scope, ".png"@)
        }
    } else if cat == "sstp"@ {
        if !spec_ {
            "sstp.png"@
        } else {
            scoped("sstp_new"@, scope, ".png"@)
        }
    } else {
        "unknown.png"@
    }
}

/// `stem` + scope part + `tail`.
fn scoped_exec(stem: &str, scope: i32, tail: &str) -> (r: String)
    ensures
        r@ == scoped(stem@, scope, tail@),
{
    let mut r = String::from_str(stem);
    if scope == 0 {
        push_str(&mut r, "s");
    } else if scope == 1 {
        push_str(&mut r, "k");
    } else {
        push_str(&mut r, "p");
        push_str(&mut r, int_to_string(scope as i64).as_str());
        push_str(&mut r, "def");
    }
    push_str(&mut r, tail);
    r
}

/// A number followed by `.png`.
fn numbered_png(n: u64) -> (r: String)
    ensures
        r@ == int_numeral(n as int) + ".png"@,
{
    let mut r = nat_to_string(n);
    push_str(&mut r, ".png");
    r
}

/// The file name an imported image is saved under (see `import_file_name`).
pub fn get_import_target_filename(c: &ImportChoice) -> (r: String)
    ensures
        r@ == import_file_name(*c),
{
    let cat = c.category.as_str();
    if str_eq(cat, "free") {
        c.custom_filename.clone()
    } else if str_eq(cat, "thumbnail") {
        String::from_str("thumbnail.png")
    } else if str_eq(cat, "online") {
        let mut r = String::from_str("online");
        push_str(&mut r, numbered_png(c.target_id_num as u64).as_str());
        r
    } else if str_eq(cat, "inputbtn") {
        let mut r = c.inputbtn_kind.clone();
        push_str(&mut r, "_");
        push_str(&mut r, c.inputbtn_state.as_str());
        push_str(&mut r, ".png");
        r
    } else if str_eq(cat, "balloon") {
        scoped_exec("balloon", c.scope_num, numbered_png(c.target_id_num as u64).as_str())
    } else if str_eq(cat, "balloonc") {
        let mut r = String::from_str("balloonc");
        push_str(&mut r, numbered_png(c.balloonc_id as u64).as_str());
        r
    } else if str_eq(cat, "arrow") {
        if !c.is_scope_specific {
            let mut r = String::from_str("arrow");
            push_str(&mut r, numbered_png(c.arrow_dir as u64).as_str());
            r
        } else {
            scoped_exec("arrow", c.scope_num, numbered_png(c.arrow_dir as u64).as_str())
        }
    } else if str_eq(cat, "clickwait") {
        if !c.is_scope_specific {
            String::from_str("clickwait.png")
        } else {
            scoped_exec("clickwait", c.scope_num, ".png")
        }
    } else if str_eq(cat, "marker") {
        if !c.is_scope_specific {
            String::from_str("marker.png")
        } else {
            scoped_exec("marker", c.scope_num, ".png")
        }
    } else if str_eq(cat, "sstp") {
        if !c.is_scope_specific {
            String::from_str("sstp.png")
        } else {
            scoped_exec("sstp_new", c.scope_num, ".png")
        }
    } else {
        String::from_str("unknown.png")
    }
}

/// The keys of the basic information read from `descript.txt`.
pub open spec fn basic_keys() -> Seq<Seq<char>> {
    seq!["name"@, "craftman"@, "craftmanw"@, "craftmanurl"@, "homeurl"@]
}

/// The basic information: the `name`, `craftman`, `craftmanw`,
/// `craftmanurl` and `homeurl` that `descript.txt` sets, and the
/// `directory` that `install.txt` sets.
pub open spec fn basic_info_of(d: Map<Seq<char>, Seq<char>>, i: Map<Seq<char>, Seq<char>>) -> Map<Seq<char>, Seq<char>> {
    Map::new(
        |k: Seq<char>| (basic_keys().contains(k) && d.contains_key(k)) || (k == "directory"@ && i.contains_key(k)),
        |k: Seq<char>| if k == "directory"@ { i[k] } else { d[k] },
    )
}

/// The warning shown when `descript.txt` and `install.txt` name the
/// ghost differently.
pub open spec fn name_mismatch_warning(nd: Seq<char>, ni: Seq<char>) -> Seq<char> {
    "descript.txt と install.txt の name が食い違っています。\ndescript.txt: \""@ + nd
        + "\"\ninstall.txt: \""@ + ni + "\"\ndescript.txt 側の値を採用します。"@
}

/// The basic information of a project, with what a name mismatch brings.
pub struct BasicInfo {
    pub info: StringHashMap<String>,
    /// The warning, where the two files name the ghost differently.
    pub warning: Option<String>,
    /// The new `install.txt` text, its `name` set to the descript's, in that case.
    pub install_text: Option<String>,
}

/// Copies `key` from `from` into `to` where `from` has it.
fn copy_key(to: &mut StringHashMap<String>, from: &StringHashMap<String>, key: &str)
    ensures
        strs(final(to)@) == (if strs(from@).contains_key(key@) {
            strs(old(to)@).insert(key@, strs(from@)[key@])
        } else {
            strs(old(to)@)
        }),
{
    match from.get(key) {
        Some(v) => {
            to.insert(String::from_str(key), v.clone());
            assert(strs(to@) =~= strs(old(to)@).insert(key@, v@));
        },
        None => {},
    }
}

/// Reads the basic information (see `basic_info_of`); where both files set
/// `name` and they differ, the descript's name wins: a warning is given and
/// `install.txt` is to take that name.
pub fn rebuild_basic_info(descript_text: &str, install_text: &str) -> (r: BasicInfo)
    ensures
        ({
            let d = descript_map(descript_text@);
            let i = descript_map(install_text@);
            &&& strs(r.info@) == basic_info_of(d, i)
            &&& if d.contains_key("name"@) && i.contains_key("name"@) && d["name"@] != i["name"@] {
                &&& r.warning is Some && r.warning->0@ == name_mismatch_warning(d["name"@], i["name"@])
                &&& r.install_text is Some && r.install_text->0@ == set_value_text(
                    install_text@,
                    "name"@,
                    d["name"@],
                )
            } else {
                r.warning is None && r.install_text is None
            }
        }),
{
    let pd = parse_descript(descript_text);
    let pi = parse_descript(install_text);
    proof {
        lemma_models_strs(pd@, descript_map(descript_text@));
        lemma_models_strs(pi@, descript_map(install_text@));
    }
    let ghost d = descript_map(descript_text@);
    let ghost i = descript_map(install_text@);
    let mut info: StringHashMap<String> = StringHashMap::new();
    copy_key(&mut info, &pd, "name");
    let ghost m1 = strs(info@);
    copy_key(&mut info, &pd, "craftman");
    let ghost m2 = strs(info@);
    copy_key(&mut info, &pd, "craftmanw");
    let ghost m3 = strs(info@);
    copy_key(&mut info, &pd, "craftmanurl");
    let ghost m4 = strs(info@);
    copy_key(&mut info, &pd, "homeurl");
    let ghost m5 = strs(info@);
    copy_key(&mut info, &pi, "directory");
    proof {
        reveal_strlit("name");
        reveal_strlit("craftman");
        reveal_strlit("craftmanw");
        reveal_strlit("craftmanurl");
        reveal_strlit("homeurl");
        reveal_strlit("directory");
        let bk = basic_keys();
        assert(bk[0] == "name"@ && bk[1] == "craftman"@ && bk[2] == "craftmanw"@ && bk[3] == "craftmanurl"@
            && bk[4] == "homeurl"@);
        assert forall|k: Seq<char>| #[trigger] strs(info@).contains_key(k) <==> basic_info_of(d, i).contains_key(k) by {
            if bk.contains(k) {
                let j = choose|j: int| 0 <= j < bk.len() && bk[j] == k;
                assert(j == 0 || j == 1 || j == 2 || j == 3 || j == 4);
            }
            if k == "name"@ { assert(bk.contains(k)) by { assert(bk[0] == k); } }
            if k == "craftman"@ { assert(bk.contains(k)) by { assert(bk[1] == k); } }
            if k == "craftmanw"@ { assert(bk.contains(k)) by { assert(bk[2] == k); } }
            if k == "craftmanurl"@ { assert(bk.contains(k)) by { assert(bk[3] == k); } }
            if k == "homeurl"@ { assert(bk.contains(k)) by { assert(bk[4] == k); } }
        }
        assert("directory"@.len() == 9 && "name"@.len() == 4 && "craftman"@.len() == 8 && "craftmanw"@.len() == 9
            && "craftmanurl"@.len() == 11 && "homeurl"@.len() == 7);
        assert("directory"@[0] == 'd' && "craftmanw"@[0] == 'c');
        assert("directory"@ != "name"@ && "directory"@ != "craftman"@ && "directory"@ != "craftmanw"@
            && "directory"@ != "craftmanurl"@ && "directory"@ != "homeurl"@);
        assert("homeurl"@ != "name"@ && "homeurl"@ != "craftman"@ && "homeurl"@ != "craftmanw"@
            && "homeurl"@ != "craftmanurl"@);
        assert("craftmanurl"@ != "name"@ && "craftmanurl"@ != "craftman"@ && "craftmanurl"@ != "craftmanw"@);
        assert("craftmanw"@ != "name"@ && "craftmanw"@ != "craftman"@);
        assert("craftman"@ != "name"@);
        assert forall|k: Seq<char>| #[trigger] strs(info@).contains_key(k) implies strs(info@)[k] == basic_info_of(d, i)[k] by {
            if k == "directory"@ {
            } else if k == "homeurl"@ {
                assert(strs(info@)[k] == m5[k]);
            } else if k == "craftmanurl"@ {
                assert(strs(info@)[k] == m5[k] && m5[k] == m4[k]);
            } else if k == "craftmanw"@ {
                assert(strs(info@)[k] == m5[k] && m5[k] == m4[k] && m4[k] == m3[k]);
            } else if k == "craftman"@ {
                assert(strs(info@)[k] == m5[k] && m5[k] == m4[k] && m4[k] == m3[k] && m3[k] == m2[k]);
            } else {
                assert(strs(info@)[k] == m5[k] && m5[k] == m4[k] && m4[k] == m3[k] && m3[k] == m2[k] && m2[k] == m1[k]);
            }
        }
        assert(strs(info@) =~= basic_info_of(d, i));
    }
    let mut warning: Option<String> = None;
    let mut new_install: Option<String> = None;
    match (pd.get("name"), pi.get("name")) {
        (Some(nd), Some(ni)) => {
            if !str_eq(nd.as_str(), ni.as_str()) {
                let mut w = String::from_str("descript.txt と install.txt の name が食い違っています。\ndescript.txt: \"");
                push_str(&mut w, nd.as_str());
                push_str(&mut w, "\"\ninstall.txt: \"");
                push_str(&mut w, ni.as_str());
                push_str(&mut w, "\"\ndescript.txt 側の値を採用します。");
                warning = Some(w);
                new_install = Some(set_descript_value(install_text, "name", nd.as_str()));
            }
        },
        _ => {},
    }
    BasicInfo { info, warning, install_text: new_install }
}

} // verus!
