//! Which font file a font name resolves to: the names a comma-separated
//! list tries, and the order in which the files of a font folder are tried
//! for one name.
use vstd::prelude::*;
use crate::descript::str_eq;
use crate::fonts::{key_chars, normalize_font_key};
use crate::layout::{split_by, views};
use crate::rows::{find_sub, find_sub_in};
use crate::text::{chars_of, starts_with, starts_with_at, str_lowercase, string_of, to_lowercase, trim, trim_bounds};

verus! {

/// The font names a comma-separated list tries, each trimmed, in order.
pub open spec fn font_names(raw: Seq<char>) -> Seq<Seq<char>> {
    split_by(raw, ',').map_values(|s: Seq<char>| trim(s))
}

/// The font names a comma-separated list tries (see `font_names`).
pub fn font_name_candidates(raw: &str) -> (r: Vec<String>)
    ensures
        views(r@) == font_names(raw@),
{
    let v = chars_of(raw);
    let mut out: Vec<String> = Vec::new();
    let mut a: usize = 0;
    let ghost mut rest = raw@;
    proof {
        assert(v@.subrange(0, v@.len() as int) =~= v@);
    }
    loop
        invariant
            a <= v.len(),
            v@ == raw@,
            rest == v@.skip(a as int),
            views(out@) + font_names(rest) == font_names(raw@),
        decreases v.len() - a,
    {
        let ghost r0 = rest;
        let comma = crate::text::find_char_in(&v, a, v.len(), ',');
        proof {
            crate::text::lemma_find_char(r0, ',');
            assert(v@.subrange(a as int, v@.len() as int) =~= r0);
        }
        match comma {
            Some(i) => {
                let (s, e) = trim_bounds(&v, a, i);
                let piece = string_of(&v, s, e);
                proof {
                    let k = i - a;
                    assert(crate::text::find_char(r0, ',') == Some(k as int));
                    assert(v@.subrange(a as int, i as int) =~= r0.take(k as int));
                    assert(r0.skip(k + 1) =~= v@.skip(i + 1));
                    let ps = split_by(r0, ',');
                    assert(ps == seq![r0.take(k as int)] + split_by(r0.skip(k + 1), ','));
                    assert(font_names(r0) =~= seq![trim(r0.take(k as int))] + font_names(r0.skip(k + 1)));
                    rest = v@.skip(i + 1);
                }
                let ghost o0 = views(out@);
                out.push(piece);
                proof {
                    assert(views(out@) =~= o0.push(piece@));
                    assert(views(out@) + font_names(rest) =~= o0 + font_names(r0));
                }
                a = i + 1;
            },
            None => {
                let (s, e) = trim_bounds(&v, a, v.len());
                let piece = string_of(&v, s, e);
                proof {
                    assert(split_by(r0, ',') == seq![r0]);
                    assert(font_names(r0) =~= seq![trim(r0)]);
                }
                let ghost o0 = views(out@);
                out.push(piece);
                proof {
                    assert(views(out@) =~= o0.push(piece@));
                    assert(views(out@) =~= o0 + font_names(r0));
                }
                return out;
            },
        }
    }
}

/// Index of the last `.` of a file name, if any.
pub open spec fn last_dot(f: Seq<char>) -> Option<int>
    decreases f.len(),
{
    if f.len() == 0 {
        None
    } else if f.last() == '.' {
        Some(f.len() - 1)
    } else {
        last_dot(f.drop_last())
    }
}

/// Where a file name splits into stem and extension: at its last `.`,
/// unless that `.` opens the name (`Path::file_stem` / `Path::extension`).
pub open spec fn ext_dot(f: Seq<char>) -> Option<int> {
    match last_dot(f) {
        Some(i) if i > 0 => Some(i),
        _ => None,
    }
}

/// The stem of a file name.
pub open spec fn stem_of(f: Seq<char>) -> Seq<char> {
    match ext_dot(f) {
        Some(i) => f.take(i),
        None => f,
    }
}

/// The extension of a file name, empty where it has none.
pub open spec fn ext_of(f: Seq<char>) -> Seq<char> {
    match ext_dot(f) {
        Some(i) => f.skip(i + 1),
        None => Seq::empty(),
    }
}

/// A font file: its extension, lower-cased, is `ttf`, `otf` or `ttc`.
pub open spec fn is_font_file(f: Seq<char>) -> bool {
    let e = str_lowercase(ext_of(f));
    e == "ttf"@ || e == "otf"@ || e == "ttc"@
}

/// A font file named exactly as asked, ignoring case.
pub open spec fn exact_font(f: Seq<char>, name: Seq<char>) -> bool {
    is_font_file(f) && str_lowercase(f) == str_lowercase(name)
}

/// A font file whose stem's key and the asked name's key (see
/// `normalize_font_key`) are one a prefix of the other.
pub open spec fn prefix_font(f: Seq<char>, name: Seq<char>) -> bool {
    let ks = str_lowercase(key_chars(stem_of(f)));
    let kn = str_lowercase(key_chars(name));
    is_font_file(f) && (starts_with(ks, kn) || starts_with(kn, ks))
}

/// A bold-looking font file: its lower-cased stem holds `bold`, `heavy` or `black`.
pub open spec fn bold_font(f: Seq<char>) -> bool {
    let s = str_lowercase(stem_of(f));
    find_sub(s, "bold"@) is Some || find_sub(s, "heavy"@) is Some || find_sub(s, "black"@) is Some
}

/// `a <= b` in the order of characters, position by position.
pub open spec fn lex_le(a: Seq<char>, b: Seq<char>) -> bool
    decreases a.len(),
{
    if a.len() == 0 {
        true
    } else if b.len() == 0 {
        false
    } else if a[0] != b[0] {
        (a[0] as int) < (b[0] as int)
    } else {
        lex_le(a.drop_first(), b.drop_first())
    }
}

/// Any two texts are ordered one way or the other.
pub proof fn lemma_lex_total(a: Seq<char>, b: Seq<char>)
    ensures
        lex_le(a, b) || lex_le(b, a),
    decreases a.len(),
{
    if a.len() > 0 && b.len() > 0 {
        if a[0] == b[0] {
            lemma_lex_total(a.drop_first(), b.drop_first());
        } else {
            assert(a[0] as int != b[0] as int);
        }
    }
}

/// The order of texts is transitive.
pub proof fn lemma_lex_trans(a: Seq<char>, b: Seq<char>, c: Seq<char>)
    requires
        lex_le(a, b),
        lex_le(b, c),
    ensures
        lex_le(a, c),
    decreases a.len(),
{
    if a.len() > 0 && b.len() > 0 && c.len() > 0 && a[0] == b[0] && b[0] == c[0] {
        lemma_lex_trans(a.drop_first(), b.drop_first(), c.drop_first());
    }
}

/// The order candidates are tried in: regular before bold, then by file name.
pub open spec fn font_le(a: Seq<char>, b: Seq<char>) -> bool {
    (!bold_font(a) && bold_font(b)) || (bold_font(a) == bold_font(b) && lex_le(a, b))
}

/// The indices of `files` at which `p` holds, in order.
pub open spec fn indices_where(files: Seq<Seq<char>>, p: spec_fn(Seq<char>) -> bool) -> Seq<usize>
    decreases files.len(),
{
    if files.len() == 0 {
        Seq::empty()
    } else {
        let r = indices_where(files.drop_last(), p);
        if p(files.last()) {
            r.push((files.len() - 1) as usize)
        } else {
            r
        }
    }
}

/// Files named exactly `name`.
pub open spec fn exact_pred(name: Seq<char>) -> spec_fn(Seq<char>) -> bool {
    |f: Seq<char>| exact_font(f, name)
}

/// Files matching `name` by key.
pub open spec fn prefix_pred(name: Seq<char>) -> spec_fn(Seq<char>) -> bool {
    |f: Seq<char>| prefix_font(f, name)
}

/// The files tried for `name`, by index into `files`: first each font file
/// named exactly so, in the order listed; then every font file whose stem
/// matches by key, regular before bold and by file name.
pub open spec fn font_try_order(name: Seq<char>, files: Seq<Seq<char>>, r: Seq<usize>) -> bool {
    let exact = indices_where(files, exact_pred(name));
    let cands = indices_where(files, prefix_pred(name));
    let tail = r.skip(exact.len() as int);
    &&& exact.len() <= r.len()
    &&& r.take(exact.len() as int) == exact
    &&& tail.to_multiset() == cands.to_multiset()
    &&& forall|i: int, j: int|
        0 <= i < j < tail.len() ==> font_le(#[trigger] files[tail[i] as int], #[trigger] files[tail[j] as int])
}

/// `font_le` is total.
proof fn lemma_font_le_total(a: Seq<char>, b: Seq<char>)
    ensures
        font_le(a, b) || font_le(b, a),
{
    lemma_lex_total(a, b);
}

/// `font_le` is transitive.
proof fn lemma_font_le_trans(a: Seq<char>, b: Seq<char>, c: Seq<char>)
    requires
        font_le(a, b),
        font_le(b, c),
    ensures
        font_le(a, c),
{
    if bold_font(a) == bold_font(b) && bold_font(b) == bold_font(c) {
        lemma_lex_trans(a, b, c);
    }
}

/// One more file: its index joins the list where `p` holds of it.
proof fn lemma_indices_step(files: Seq<Seq<char>>, p: spec_fn(Seq<char>) -> bool, i: int)
    requires
        0 <= i < files.len(),
    ensures
        indices_where(files.take(i + 1), p) == (if p(files[i]) {
            indices_where(files.take(i), p).push(i as usize)
        } else {
            indices_where(files.take(i), p)
        }),
{
    assert(files.take(i + 1).drop_last() =~= files.take(i));
    assert(files.take(i + 1).last() == files[i]);
}

/// `a <= b` in the order of characters (see `lex_le`).
fn lex_le_exec(a: &Vec<char>, b: &Vec<char>) -> (r: bool)
    ensures
        r == lex_le(a@, b@),
{
    let mut i: usize = 0;
    assert(a@.skip(0) =~= a@);
    assert(b@.skip(0) =~= b@);
    while i < a.len() && i < b.len() && a[i] == b[i]
        invariant
            i <= a.len(),
            i <= b.len(),
            lex_le(a@, b@) == lex_le(a@.skip(i as int), b@.skip(i as int)),
        decreases a.len() - i,
    {
        assert(a@.skip(i as int).drop_first() =~= a@.skip(i + 1));
        assert(b@.skip(i as int).drop_first() =~= b@.skip(i + 1));
        i = i + 1;
    }
    if i == a.len() {
        true
    } else if i == b.len() {
        false
    } else {
        assert(a@.skip(i as int)[0] == a@[i as int]);
        assert(b@.skip(i as int)[0] == b@[i as int]);
        a[i] < b[i]
    }
}

/// Where the stem of a file name ends (see `ext_dot`).
fn ext_dot_exec(f: &Vec<char>) -> (r: Option<usize>)
    ensures
        match r {
            Some(i) => ext_dot(f@) == Some(i as int) && 0 < i < f@.len(),
            None => ext_dot(f@) is None,
        },
{
    let mut e: usize = f.len();
    assert(f@.take(f@.len() as int) =~= f@);
    while e > 0 && f[e - 1] != '.'
        invariant
            e <= f.len(),
            last_dot(f@) == last_dot(f@.take(e as int)),
        decreases e,
    {
        assert(f@.take(e as int).drop_last() =~= f@.take(e - 1));
        e = e - 1;
    }
    if e == 0 {
        assert(f@.take(0) =~= Seq::<char>::empty());
        None
    } else {
        assert(f@.take(e as int).last() == f@[e - 1]);
        if e - 1 > 0 {
            Some(e - 1)
        } else {
            None
        }
    }
}

/// Whether `f` is a font file (see `is_font_file`).
fn font_file_exec(f: &Vec<char>) -> (r: bool)
    ensures
        r == is_font_file(f@),
{
    let d = ext_dot_exec(f);
    let ext = match d {
        Some(i) => {
            assert(i < f.len());
            assert(f@.subrange(i + 1, f@.len() as int) =~= f@.skip(i + 1));
            string_of(f, i + 1, f.len())
        },
        None => String::new(),
    };
    let low = to_lowercase(ext.as_str());
    str_eq(low.as_str(), "ttf") || str_eq(low.as_str(), "otf") || str_eq(low.as_str(), "ttc")
}

/// The stem of `f` (see `stem_of`).
fn stem_exec(f: &Vec<char>) -> (r: String)
    ensures
        r@ == stem_of(f@),
{
    let d = ext_dot_exec(f);
    match d {
        Some(i) => {
            assert(f@.subrange(0, i as int) =~= f@.take(i as int));
            string_of(f, 0, i)
        },
        None => {
            assert(f@.subrange(0, f@.len() as int) =~= f@);
            string_of(f, 0, f.len())
        },
    }
}

/// Whether `s` holds `lit`.
fn holds_lit(s: &Vec<char>, lit: &str) -> (r: bool)
    ensures
        r == (find_sub(s@, lit@) is Some),
{
    let p = chars_of(lit);
    assert(s@.subrange(0, s@.len() as int) =~= s@);
    find_sub_in(s, 0, s.len(), &p).is_some()
}

/// Whether `f` looks bold (see `bold_font`).
fn bold_exec(f: &Vec<char>) -> (r: bool)
    ensures
        r == bold_font(f@),
{
    let stem = stem_exec(f);
    let low = to_lowercase(stem.as_str());
    let lv = chars_of(low.as_str());
    holds_lit(&lv, "bold") || holds_lit(&lv, "heavy") || holds_lit(&lv, "black")
}

/// `a` is tried no later than `b` (see `font_le`).
fn font_le_exec(a: &Vec<char>, b: &Vec<char>) -> (r: bool)
    ensures
        r == font_le(a@, b@),
{
    let ba = bold_exec(a);
    let bb = bold_exec(b);
    (!ba && bb) || (ba == bb && lex_le_exec(a, b))
}

/// `p` is a prefix of `s`, for whole texts.
fn has_prefix(s: &Vec<char>, p: &Vec<char>) -> (r: bool)
    ensures
        r == starts_with(s@, p@),
{
    assert(s@.subrange(0, s@.len() as int) =~= s@);
    starts_with_at(s, 0, s.len(), p)
}

/// The order in which the files of a font folder are tried for one font
/// name (see `font_try_order`); `files` are the file names of the folder.
pub fn font_file_order(name: &str, files: &Vec<String>) -> (r: Vec<usize>)
    ensures
        font_try_order(name@, views(files@), r@),
{
    let ghost fs = views(files@);
    let name_low = to_lowercase(name);
    let name_key = normalize_font_key(name);
    let kn = chars_of(name_key.as_str());
    let mut exact: Vec<usize> = Vec::new();
    let mut sorted: Vec<usize> = Vec::new();
    let mut i: usize = 0;
    assert(fs.take(0) =~= Seq::<Seq<char>>::empty());
    while i < files.len()
        invariant
            i <= files.len(),
            fs == views(files@),
            name_low@ == str_lowercase(name@),
            kn@ == str_lowercase(key_chars(name@)),
            exact@ == indices_where(fs.take(i as int), exact_pred(name@)),
            sorted@.to_multiset() == indices_where(fs.take(i as int), prefix_pred(name@)).to_multiset(),
            forall|q: int| 0 <= q < sorted@.len() ==> sorted@[q] < i,
            forall|a: int, c: int|
                0 <= a < c < sorted@.len() ==> font_le(
                    #[trigger] fs[sorted@[a] as int],
                    #[trigger] fs[sorted@[c] as int],
                ),
        decreases files.len() - i,
    {
        let f = chars_of(files[i].as_str());
        assert(fs[i as int] == f@);
        proof {
            lemma_indices_step(fs, exact_pred(name@), i as int);
            lemma_indices_step(fs, prefix_pred(name@), i as int);
        }
        let is_font = font_file_exec(&f);
        let low = to_lowercase(files[i].as_str());
        if is_font && str_eq(low.as_str(), name_low.as_str()) {
            exact.push(i);
        }
        let stem = stem_exec(&f);
        let sk = normalize_font_key(stem.as_str());
        let ks = chars_of(sk.as_str());
        let is_cand = is_font && (has_prefix(&ks, &kn) || has_prefix(&kn, &ks));
        assert(is_cand == prefix_pred(name@)(fs[i as int]));
        assert(is_font && low@ == name_low@ <==> exact_pred(name@)(fs[i as int]));
        if is_cand {
            let mut p: usize = 0;
            while p < sorted.len() && font_le_exec(&chars_of(files[sorted[p]].as_str()), &f)
                invariant
                    p <= sorted@.len(),
                    i < files.len(),
                    fs == views(files@),
                    f@ == fs[i as int],
                    forall|q: int| 0 <= q < sorted@.len() ==> sorted@[q] < i,
                    forall|q: int| 0 <= q < p ==> font_le(#[trigger] fs[sorted@[q] as int], fs[i as int]),
                decreases sorted@.len() - p,
            {
                assert(fs[sorted@[p as int] as int] == files@[sorted@[p as int] as int]@);
                p = p + 1;
            }
            proof {
                if p < sorted@.len() {
                    assert(fs[sorted@[p as int] as int] == files@[sorted@[p as int] as int]@);
                    lemma_font_le_total(fs[sorted@[p as int] as int], fs[i as int]);
                }
            }
            let ghost s0 = sorted@;
            sorted.insert(p, i);
            proof {
                vstd::seq_lib::to_multiset_insert(s0, p as int, i);
                vstd::seq_lib::to_multiset_build(indices_where(fs.take(i as int), prefix_pred(name@)), i);
                assert forall|a: int, c: int| 0 <= a < c < sorted@.len() implies font_le(
                    #[trigger] fs[sorted@[a] as int],
                    #[trigger] fs[sorted@[c] as int],
                ) by {
                    if c < p {
                        assert(sorted@[a] == s0[a] && sorted@[c] == s0[c]);
                    } else if c == p {
                        assert(sorted@[a] == s0[a]);
                    } else if a == p {
                        assert(sorted@[c] == s0[c - 1]);
                        assert(font_le(fs[i as int], fs[s0[p as int] as int]));
                        if p < c - 1 {
                            assert(font_le(fs[s0[p as int] as int], fs[s0[c - 1] as int]));
                            lemma_font_le_trans(fs[i as int], fs[s0[p as int] as int], fs[s0[c - 1] as int]);
                        }
                    } else if a < p {
                        assert(sorted@[a] == s0[a] && sorted@[c] == s0[c - 1]);
                    } else {
                        assert(sorted@[a] == s0[a - 1] && sorted@[c] == s0[c - 1]);
                    }
                }
                assert forall|q: int| 0 <= q < sorted@.len() implies sorted@[q] < i + 1 by {
                    if q < p {
                        assert(sorted@[q] == s0[q]);
                    } else if q > p {
                        assert(sorted@[q] == s0[q - 1]);
                    }
                }
            }
        }
        i = i + 1;
    }
    proof {
        assert(fs.take(files.len() as int) =~= fs);
    }
    let ghost ex = exact@;
    let mut r = exact;
    let mut k: usize = 0;
    while k < sorted.len()
        invariant
            k <= sorted@.len(),
            r@ == ex + sorted@.take(k as int),
        decreases sorted@.len() - k,
    {
        r.push(sorted[k]);
        assert(sorted@.take(k + 1) =~= sorted@.take(k as int).push(sorted@[k as int]));
        k = k + 1;
    }
    proof {
        assert(sorted@.take(sorted@.len() as int) =~= sorted@);
        assert(r@.take(ex.len() as int) =~= ex);
        assert(r@.skip(ex.len() as int) =~= sorted@);
    }
    r
}

} // verus!
