//! `slbe_files.txt` as the row editor sees it: comment rows and balloon
//! rows (a balloon name and its `file:color_type` layers), read from and
//! written back to text.
use vstd::prelude::*;
use crate::descript::{comment_mark, str_eq};
use crate::layout::{split_by, views};
use crate::naming::{in_names, key_rank, sort_key, sort_key_of, u32_or};
use crate::num::{all_digits, int_numeral, int_to_string, is_digit, lemma_nat_digits, lemma_parse_numeral, nat_digits, nat_to_string, parse_in_range, parse_range};
use crate::text::{
    chars_of, find_char, find_char_in, is_ws, join, lemma_find_char, push_str, split_lines, starts_with,
    starts_with_at, string_of, trim, trim_bounds, trim_end, trim_start,
};
use crate::descript_laws::{
    lemma_lines_shape, lemma_pieces_no_sep, lemma_pieces_of_join_by, lemma_plain_word, lemma_split_by_len,
    lemma_split_lines_pieces, lemma_trim_end_last, lemma_trim_end_len, lemma_trim_end_prefix, lemma_trim_start,
    lemma_trimmed, lines_of_pieces,
};
use crate::text::strip_cr;

verus! {

/// A balloon name as its parts: `balloons{id}` (scope 0), `balloonk{id}`
/// (scope 1), `balloonp{scope}def{id}` (any other scope), `balloonc{id}`.
#[allow(inconsistent_fields)]
#[derive(Debug, Clone, Copy, PartialEq, Eq, Structural)]
pub enum BalloonScope {
    Normal { scope: i32, id: u32 },
    BalloonC { id: usize },
}

/// Index of the first occurrence of `p` in `s`.
pub open spec fn find_sub(s: Seq<char>, p: Seq<char>) -> Option<int>
    decreases s.len(),
{
    if s.len() < p.len() {
        None
    } else if s.subrange(0, p.len() as int) == p {
        Some(0)
    } else if s.len() == 0 {
        None
    } else {
        match find_sub(s.skip(1), p) {
            Some(i) => Some(i + 1),
            None => None,
        }
    }
}

/// `s.parse::<T>().unwrap_or(d)` for an integer type with range `[lo, hi]`.
pub open spec fn parsed_or(s: Seq<char>, signed: bool, lo: int, hi: int, d: int) -> int {
    match parse_in_range(s, signed, lo, hi) {
        Some(n) => n,
        None => d,
    }
}

/// The parts of a balloon name, as the row editor reads it; a name it does
/// not know is read as `balloons0`.
pub open spec fn scope_of(name: Seq<char>) -> BalloonScope {
    let rest = name.skip(8);
    if starts_with(name, "balloonc"@) {
        let n = parsed_or(rest, false, 0, usize::MAX as int, 0);
        BalloonScope::BalloonC {
            id: (if n < 4 {
                n
            } else {
                4
            }) as usize,
        }
    } else if starts_with(name, "balloons"@) {
        BalloonScope::Normal { scope: 0, id: u32_or(rest, 0) as u32 }
    } else if starts_with(name, "balloonk"@) {
        BalloonScope::Normal { scope: 1, id: u32_or(rest, 0) as u32 }
    } else if starts_with(name, "balloonp"@) && find_sub(rest, "def"@) is Some {
        let d = find_sub(rest, "def"@)->0;
        BalloonScope::Normal {
            scope: parsed_or(rest.take(d), true, i32::MIN as int, i32::MAX as int, 2) as i32,
            id: u32_or(rest.skip(d + 3), 0) as u32,
        }
    } else {
        BalloonScope::Normal { scope: 0, id: 0 }
    }
}

/// The balloon name of a scope.
pub open spec fn scope_name(s: BalloonScope) -> Seq<char> {
    match s {
        BalloonScope::Normal { scope, id } => if scope == 0 {
            "balloons"@ + int_numeral(id as int)
        } else if scope == 1 {
            "balloonk"@ + int_numeral(id as int)
        } else {
            "balloonp"@ + int_numeral(scope as int) + "def"@ + int_numeral(id as int)
        },
        BalloonScope::BalloonC { id } => "balloonc"@ + int_numeral(id as int),
    }
}

/// First index of `p` in `v[a..b]`.
pub fn find_sub_in(v: &Vec<char>, a: usize, b: usize, p: &Vec<char>) -> (r: Option<usize>)
    requires
        a <= b <= v.len(),
    ensures
        match r {
            Some(i) => a <= i <= b && find_sub(v@.subrange(a as int, b as int), p@) == Some(i - a),
            None => find_sub(v@.subrange(a as int, b as int), p@) is None,
        },
{
    let mut i = a;
    loop
        invariant
            a <= i <= b <= v.len(),
            find_sub(v@.subrange(a as int, b as int), p@) == match find_sub(
                v@.subrange(i as int, b as int),
                p@,
            ) {
                Some(k) => Some(k + (i - a)),
                None => None::<int>,
            },
        decreases b - i,
    {
        let ghost s = v@.subrange(i as int, b as int);
        if b - i < p.len() {
            return None;
        }
        if starts_with_at(v, i, b, p) {
            return Some(i);
        }
        if i == b {
            return None;
        }
        assert(s.skip(1) =~= v@.subrange(i + 1, b as int));
        i = i + 1;
    }
}

/// `v[a..b].parse::<T>().unwrap_or(d)` for a type with range `[lo, hi]`.
fn parse_or(v: &Vec<char>, a: usize, b: usize, signed: bool, lo: i128, hi: i128, d: i128) -> (r: i128)
    requires
        a <= b <= v.len(),
        lo <= 0 <= hi,
        hi <= u64::MAX,
        lo >= i64::MIN,
    ensures
        r == parsed_or(v@.subrange(a as int, b as int), signed, lo as int, hi as int, d as int),
{
    match parse_range(v, a, b, signed, lo, hi) {
        Some(n) => n,
        None => d,
    }
}

impl BalloonScope {
    /// The balloon name.
    pub fn to_name(&self) -> (s: String)
        ensures
            s@ == scope_name(*self),
    {
        match *self {
            BalloonScope::Normal { scope, id } => {
                if scope == 0 {
                    let mut s = String::from_str("balloons");
                    push_str(&mut s, nat_to_string(id as u64).as_str());
                    s
                } else if scope == 1 {
                    let mut s = String::from_str("balloonk");
                    push_str(&mut s, nat_to_string(id as u64).as_str());
                    s
                } else {
                    let mut s = String::from_str("balloonp");
                    push_str(&mut s, int_to_string(scope as i64).as_str());
                    push_str(&mut s, "def");
                    push_str(&mut s, nat_to_string(id as u64).as_str());
                    s
                }
            },
            BalloonScope::BalloonC { id } => {
                let mut s = String::from_str("balloonc");
                push_str(&mut s, nat_to_string(id as u64).as_str());
                s
            },
        }
    }

    /// Reads a balloon name (see `scope_of`).
    pub fn parse(name: &str) -> (r: BalloonScope)
        ensures
            r == scope_of(name@),
    {
        proof {
            reveal_strlit("balloonc");
            reveal_strlit("balloons");
            reveal_strlit("balloonk");
            reveal_strlit("balloonp");
            reveal_strlit("def");
        }
        let v = chars_of(name);
        let n = v.len();
        assert(v@.subrange(8, n as int) =~= name@.skip(8)) by {
            if n < 8 {
            }
        };
        let pc = chars_of("balloonc");
        if starts_with_at(&v, 0, n, &pc) {
            assert(v@.subrange(0, n as int) =~= v@);
            assert(v@.subrange(8, n as int) =~= name@.skip(8));
            let x = parse_or(&v, 8, n, false, 0, usize::MAX as i128, 0);
            return BalloonScope::BalloonC { id: if x < 4 { x as usize } else { 4 } };
        }
        assert(v@.subrange(0, n as int) =~= v@);
        let ps = chars_of("balloons");
        if starts_with_at(&v, 0, n, &ps) {
            assert(v@.subrange(8, n as int) =~= name@.skip(8));
            let x = parse_or(&v, 8, n, false, 0, u32::MAX as i128, 0);
            return BalloonScope::Normal { scope: 0, id: x as u32 };
        }
        let pk = chars_of("balloonk");
        if starts_with_at(&v, 0, n, &pk) {
            assert(v@.subrange(8, n as int) =~= name@.skip(8));
            let x = parse_or(&v, 8, n, false, 0, u32::MAX as i128, 0);
            return BalloonScope::Normal { scope: 1, id: x as u32 };
        }
        let pp = chars_of("balloonp");
        if starts_with_at(&v, 0, n, &pp) {
            assert(v@.subrange(8, n as int) =~= name@.skip(8));
            let def = chars_of("def");
            match find_sub_in(&v, 8, n, &def) {
                Some(d) => {
                    let ghost rest = name@.skip(8);
                    let ghost dd = d - 8;
                    assert(rest.take(dd) =~= v@.subrange(8, d as int));
                    let t = parse_or(&v, 8, d, true, i32::MIN as i128, i32::MAX as i128, 2);
                    assert(dd + 3 <= rest.len()) by {
                        assert(find_sub(rest, "def"@) == Some(dd));
                        lemma_find_sub_fits(rest, "def"@);
                    }
                    let id_start = d + 3;
                    assert(rest.skip(dd + 3) =~= v@.subrange(id_start as int, n as int));
                    let x = parse_or(&v, id_start, n, false, 0, u32::MAX as i128, 0);
                    return BalloonScope::Normal { scope: t as i32, id: x as u32 };
                },
                None => {},
            }
        }
        BalloonScope::Normal { scope: 0, id: 0 }
    }
}

/// Where `find_sub` finds `p`, the whole of `p` lies inside `s`.
pub proof fn lemma_find_sub_fits(s: Seq<char>, p: Seq<char>)
    ensures
        match find_sub(s, p) {
            Some(i) => 0 <= i && i + p.len() <= s.len() && s.subrange(i, i + p.len()) == p,
            None => true,
        },
    decreases s.len(),
{
    if s.len() >= p.len() && s.subrange(0, p.len() as int) != p && s.len() > 0 {
        lemma_find_sub_fits(s.skip(1), p);
        match find_sub(s.skip(1), p) {
            Some(i) => {
                assert(s.skip(1).subrange(i, i + p.len()) =~= s.subrange(i + 1, i + 1 + p.len()));
            },
            None => {},
        }
    }
}

/// One layer of a balloon row: a file name and a colour type, as written.
#[derive(Debug, Clone)]
pub struct LayerEntry {
    pub filename: String,
    pub color_type: String,
}

impl LayerEntry {
    /// A blank layer: no file, colour type `base`.
    pub fn new() -> (l: LayerEntry)
        ensures
            l.filename@ == Seq::<char>::empty(),
            l.color_type@ == "base"@,
    {
        LayerEntry { filename: String::new(), color_type: String::from_str("base") }
    }
}

/// A row of the editor: a comment line, kept as written, or a balloon with
/// its layers.
#[derive(Debug, Clone)]
pub enum FilesRow {
    Comment(String),
    Balloon { scope: BalloonScope, layers: Vec<LayerEntry> },
}

/// What a row holds, as text.
pub enum RowModel {
    Comment(Seq<char>),
    Balloon(BalloonScope, Seq<(Seq<char>, Seq<char>)>),
}

/// A layer as (file name, colour type).
pub open spec fn entry_view(l: LayerEntry) -> (Seq<char>, Seq<char>) {
    (l.filename@, l.color_type@)
}

/// Views of layers.
pub open spec fn entries_view(ls: Seq<LayerEntry>) -> Seq<(Seq<char>, Seq<char>)> {
    ls.map_values(|l: LayerEntry| entry_view(l))
}

/// What a row holds.
pub open spec fn row_view(r: FilesRow) -> RowModel {
    match r {
        FilesRow::Comment(s) => RowModel::Comment(s@),
        FilesRow::Balloon { scope, layers } => RowModel::Balloon(scope, entries_view(layers@)),
    }
}

/// What the rows hold.
pub open spec fn rows_view(rs: Seq<FilesRow>) -> Seq<RowModel> {
    rs.map_values(|r: FilesRow| row_view(r))
}

/// A trimmed, non-empty layer token: `file:color_type`, each side trimmed,
/// or a bare file name with colour type `base`.
pub open spec fn layer_of(t: Seq<char>) -> (Seq<char>, Seq<char>) {
    match find_char(t, ':') {
        Some(c) => (trim(t.take(c)), trim(t.skip(c + 1))),
        None => (t, "base"@),
    }
}

/// The layers of the tokens after the balloon name; blank tokens are skipped.
pub open spec fn layers_of(toks: Seq<Seq<char>>) -> Seq<(Seq<char>, Seq<char>)>
    decreases toks.len(),
{
    if toks.len() == 0 {
        Seq::empty()
    } else {
        let r = layers_of(toks.drop_last());
        let t = trim(toks.last());
        if t.len() == 0 {
            r
        } else {
            r.push(layer_of(t))
        }
    }
}

/// The row a line of `slbe_files.txt` becomes: a blank line becomes the
/// comment `// `; a `//` line stays as written; any other line is a balloon
/// name and its layers.
pub open spec fn row_of_line(line: Seq<char>) -> RowModel {
    let t = trim(line);
    if t.len() == 0 {
        RowModel::Comment("// "@)
    } else if starts_with(t, comment_mark()) {
        RowModel::Comment(line)
    } else {
        let parts = split_by(line, ',');
        RowModel::Balloon(scope_of(trim(parts[0])), layers_of(parts.skip(1)))
    }
}

/// The rows of a text, one per line.
pub open spec fn rows_of_text(t: Seq<char>) -> Seq<RowModel> {
    split_lines(t).map_values(|l: Seq<char>| row_of_line(l))
}

/// The layer written by a trimmed, non-empty token `v[s..e]`.
fn layer_at(v: &Vec<char>, s: usize, e: usize) -> (l: LayerEntry)
    requires
        s <= e <= v.len(),
    ensures
        entry_view(l) == layer_of(v@.subrange(s as int, e as int)),
{
    let ghost t = v@.subrange(s as int, e as int);
    match find_char_in(v, s, e, ':') {
        Some(c) => {
            let (fa, fb) = trim_bounds(v, s, c);
            let (ca, cb) = trim_bounds(v, c + 1, e);
            assert(t.take(c - s) =~= v@.subrange(s as int, c as int));
            assert(t.skip(c - s + 1) =~= v@.subrange(c + 1, e as int));
            LayerEntry { filename: string_of(v, fa, fb), color_type: string_of(v, ca, cb) }
        },
        None => {
            LayerEntry { filename: string_of(v, s, e), color_type: String::from_str("base") }
        },
    }
}

/// The layers of the comma-separated tokens in `v[a..b]`.
fn read_layers(v: &Vec<char>, a: usize, b: usize) -> (r: Vec<LayerEntry>)
    requires
        a <= b <= v.len(),
    ensures
        entries_view(r@) == layers_of(split_by(v@.subrange(a as int, b as int), ',')),
{
    let ghost toks = split_by(v@.subrange(a as int, b as int), ',');
    let mut r: Vec<LayerEntry> = Vec::new();
    let ghost mut done: Seq<Seq<char>> = Seq::empty();
    let mut p = a;
    loop
        invariant_except_break
            toks == done + split_by(v@.subrange(p as int, b as int), ','),
        invariant
            a <= p <= b <= v.len(),
            entries_view(r@) == layers_of(done),
        ensures
            toks == done,
        decreases b - p,
    {
        let ghost rest = v@.subrange(p as int, b as int);
        proof {
            lemma_find_char(rest, ',');
        }
        let (end, last) = match find_char_in(v, p, b, ',') {
            Some(q) => (q, false),
            None => (b, true),
        };
        let ghost tok = v@.subrange(p as int, end as int);
        proof {
            if last {
                assert(split_by(rest, ',') == seq![rest]);
                assert(tok == rest);
            } else {
                assert(rest.take(end - p) =~= tok);
                assert(rest.skip(end - p + 1) =~= v@.subrange(end + 1, b as int));
            }
            assert(done.push(tok).drop_last() =~= done);
        }
        let (ts, te) = trim_bounds(v, p, end);
        if ts < te {
            let l = layer_at(v, ts, te);
            let ghost r0 = r@;
            r.push(l);
            assert(entries_view(r@) =~= entries_view(r0).push(entry_view(l)));
        }
        proof {
            if last {
                done = done.push(tok);
                assert(toks =~= done);
            } else {
                assert(toks =~= done.push(tok) + split_by(v@.subrange(end + 1, b as int), ','));
                done = done.push(tok);
            }
        }
        if last {
            break;
        }
        p = end + 1;
    }
    r
}

/// The row of the line `v[a..b]`.
fn row_at(v: &Vec<char>, a: usize, b: usize) -> (r: FilesRow)
    requires
        a <= b <= v.len(),
    ensures
        row_view(r) == row_of_line(v@.subrange(a as int, b as int)),
{
    let ghost line = v@.subrange(a as int, b as int);
    let (s, e) = trim_bounds(v, a, b);
    let ghost t = v@.subrange(s as int, e as int);
    if s == e {
        return FilesRow::Comment(String::from_str("// "));
    }
    if e - s >= 2 && v[s] == '/' && v[s + 1] == '/' {
        assert(t.subrange(0, 2) =~= comment_mark());
        return FilesRow::Comment(string_of(v, a, b));
    }
    proof {
        if starts_with(t, comment_mark()) {
            assert(t.subrange(0, 2)[0] == '/');
            assert(t.subrange(0, 2)[1] == '/');
        }
        lemma_find_char(line, ',');
    }
    let ghost parts = split_by(line, ',');
    let comma = find_char_in(v, a, b, ',');
    let name_end = match comma {
        Some(c) => c,
        None => b,
    };
    proof {
        if let Some(c) = comma {
            assert(parts[0] == line.take(c - a));
            assert(line.take(c - a) =~= v@.subrange(a as int, c as int));
            assert(line.skip(c - a + 1) =~= v@.subrange(c + 1, b as int));
            assert(parts.skip(1) =~= split_by(v@.subrange(c + 1, b as int), ','));
        } else {
            assert(parts[0] == line);
            assert(parts.skip(1) =~= Seq::<Seq<char>>::empty());
        }
    }
    let (na, nb) = trim_bounds(v, a, name_end);
    let name = string_of(v, na, nb);
    let scope = BalloonScope::parse(name.as_str());
    let layers = match comma {
        Some(c) => read_layers(v, c + 1, b),
        None => Vec::new(),
    };
    proof {
        if comma is None {
            assert(entries_view(layers@) =~= Seq::<(Seq<char>, Seq<char>)>::empty());
        }
    }
    FilesRow::Balloon { scope, layers }
}

/// The rows of a text, one per line (see `row_of_line`).
pub fn parse_rows(text: &str) -> (r: Vec<FilesRow>)
    ensures
        rows_view(r@) == rows_of_text(text@),
{
    let v = chars_of(text);
    let mut rows: Vec<FilesRow> = Vec::new();
    let mut pos: usize = 0;
    let ghost mut done: Seq<Seq<char>> = Seq::empty();
    assert(v@.subrange(0, v.len() as int) =~= v@);
    while pos < v.len()
        invariant
            pos <= v.len(),
            v@ == text@,
            split_lines(v@) == done + split_lines(v@.subrange(pos as int, v.len() as int)),
            rows_view(rows@) == done.map_values(|l: Seq<char>| row_of_line(l)),
        decreases v.len() - pos,
    {
        let (ls, le, next) = crate::descript::next_line(&v, pos);
        let ghost line = v@.subrange(ls as int, le as int);
        proof {
            assert(done + split_lines(v@.subrange(pos as int, v.len() as int)) =~= done.push(line)
                + split_lines(v@.subrange(next as int, v.len() as int)));
        }
        let row = row_at(&v, ls, le);
        let ghost r0 = rows@;
        rows.push(row);
        proof {
            assert(rows_view(rows@) =~= rows_view(r0).push(row_view(row)));
            assert(done.push(line).map_values(|l: Seq<char>| row_of_line(l)) =~= done.map_values(
                |l: Seq<char>| row_of_line(l),
            ).push(row_of_line(line)));
            done = done.push(line);
        }
        pos = next;
    }
    assert(v@.subrange(v.len() as int, v.len() as int).len() == 0);
    assert(done + Seq::<Seq<char>>::empty() =~= done);
    rows
}

/// `,file:color_type` for each layer, in order.
pub open spec fn layers_text(ls: Seq<(Seq<char>, Seq<char>)>) -> Seq<char>
    decreases ls.len(),
{
    if ls.len() == 0 {
        Seq::empty()
    } else {
        layers_text(ls.drop_last()) + ","@ + ls.last().0 + ":"@ + ls.last().1
    }
}

/// The definition line of a balloon: `name,file:color_type,...`.
pub open spec fn balloon_line(scope: BalloonScope, ls: Seq<(Seq<char>, Seq<char>)>) -> Seq<char> {
    scope_name(scope) + layers_text(ls)
}

/// The line a row is written as: a comment that says nothing (`//` or
/// blank) becomes an empty line.
pub open spec fn row_line(r: RowModel) -> Seq<char> {
    match r {
        RowModel::Comment(s) => {
            let t = trim(s);
            if t == "//"@ || t.len() == 0 {
                Seq::empty()
            } else {
                s
            }
        },
        RowModel::Balloon(scope, ls) => balloon_line(scope, ls),
    }
}

/// The text of the rows: each row's line followed by a line feed.
pub open spec fn rows_text(rs: Seq<RowModel>) -> Seq<char> {
    if rs.len() == 0 {
        Seq::empty()
    } else {
        join(rs.map_values(|r: RowModel| row_line(r)), "\n"@) + "\n"@
    }
}

/// Appends `,file:color_type` for each layer.
fn push_layers(out: &mut String, layers: &[LayerEntry])
    ensures
        final(out)@ == old(out)@ + layers_text(entries_view(layers@)),
{
    let ghost es = entries_view(layers@);
    let ghost o0 = out@;
    let mut i: usize = 0;
    while i < layers.len()
        invariant
            i <= layers.len(),
            es == entries_view(layers@),
            out@ == o0 + layers_text(es.take(i as int)),
        decreases layers.len() - i,
    {
        push_str(out, ",");
        push_str(out, layers[i].filename.as_str());
        push_str(out, ":");
        push_str(out, layers[i].color_type.as_str());
        assert(es.take(i + 1).drop_last() =~= es.take(i as int));
        assert(out@ =~= o0 + layers_text(es.take(i + 1)));
        i = i + 1;
    }
    assert(es.take(layers.len() as int) =~= es);
}

/// The line of one row (see `row_line`).
fn row_text(row: &FilesRow) -> (s: String)
    ensures
        s@ == row_line(row_view(*row)),
{
    match row {
        FilesRow::Comment(c) => {
            let v = chars_of(c.as_str());
            let (a, e) = trim_bounds(&v, 0, v.len());
            assert(v@.subrange(0, v.len() as int) =~= v@);
            proof {
                reveal_strlit("//");
            }
            if a == e || (e - a == 2 && v[a] == '/' && v[a + 1] == '/') {
                assert(e - a == 2 ==> v@.subrange(a as int, e as int) =~= "//"@);
                String::new()
            } else {
                proof {
                    let w = v@.subrange(a as int, e as int);
                    reveal_strlit("//");
                    assert("//"@.len() == 2);
                    assert("//"@[0] == '/' && "//"@[1] == '/');
                    if w == "//"@ {
                        assert(w[0] == v@[a as int]);
                        assert(w[1] == v@[a + 1]);
                        assert(false);
                    }
                }
                c.clone()
            }
        },
        FilesRow::Balloon { scope, layers } => {
            let mut s = scope.to_name();
            push_layers(&mut s, layers.as_slice());
            s
        },
    }
}

/// Writes the rows back as `slbe_files.txt` text (see `rows_text`).
pub fn rows_to_text(rows: &[FilesRow]) -> (s: String)
    ensures
        s@ == rows_text(rows_view(rows@)),
{
    let ghost ls = rows_view(rows@).map_values(|r: RowModel| row_line(r));
    let mut out = String::new();
    if rows.len() == 0 {
        return out;
    }
    let mut i: usize = 0;
    while i < rows.len()
        invariant
            i <= rows.len(),
            ls == rows_view(rows@).map_values(|r: RowModel| row_line(r)),
            out@ == join(ls.take(i as int), "\n"@),
        decreases rows.len() - i,
    {
        let ghost prev = out@;
        if i > 0 {
            push_str(&mut out, "\n");
        }
        let line = row_text(&rows[i]);
        push_str(&mut out, line.as_str());
        proof {
            let t = ls.take(i + 1);
            assert(t.drop_last() =~= ls.take(i as int));
            assert(t.last() == line@);
            if i == 0 {
                assert(out@ =~= t[0]);
            } else {
                assert(out@ =~= prev + "\n"@ + t.last());
            }
        }
        i = i + 1;
    }
    assert(ls.take(rows.len() as int) =~= ls);
    push_str(&mut out, "\n");
    out
}

/// A balloon row written as a comment line: `// ` and its definition line.
pub fn balloon_to_comment_str(scope: &BalloonScope, layers: &[LayerEntry]) -> (s: String)
    ensures
        s@ == "// "@ + balloon_line(*scope, entries_view(layers@)),
{
    let mut s = String::from_str("// ");
    let name = scope.to_name();
    push_str(&mut s, name.as_str());
    push_layers(&mut s, layers);
    s
}

/// The balloon row a commented-out definition line stands for: the text
/// after `//`, read as a definition line; a balloon without layers gets one
/// blank layer.
pub open spec fn comment_row(s: Seq<char>) -> RowModel {
    let t = trim(s);
    let raw = trim(
        if starts_with(t, comment_mark()) {
            t.skip(2)
        } else {
            t
        },
    );
    let parts = split_by(raw, ',');
    let ls = layers_of(parts.skip(1));
    RowModel::Balloon(
        scope_of(trim(parts[0])),
        if ls.len() == 0 {
            seq![(Seq::<char>::empty(), "base"@)]
        } else {
            ls
        },
    )
}

/// Turns a commented-out definition line back into a balloon row (see `comment_row`).
pub fn comment_to_balloon(s: &str) -> (r: FilesRow)
    ensures
        row_view(r) == comment_row(s@),
{
    let v = chars_of(s);
    assert(v@.subrange(0, v.len() as int) =~= v@);
    let (a, e) = trim_bounds(&v, 0, v.len());
    let ghost t = v@.subrange(a as int, e as int);
    let start = if e - a >= 2 && v[a] == '/' && v[a + 1] == '/' {
        assert(t.subrange(0, 2) =~= comment_mark());
        assert(t.skip(2) =~= v@.subrange(a + 2, e as int));
        a + 2
    } else {
        proof {
            if starts_with(t, comment_mark()) {
                assert(t.subrange(0, 2)[0] == '/');
                assert(t.subrange(0, 2)[1] == '/');
            }
        }
        a
    };
    let (ra, rb) = trim_bounds(&v, start, e);
    let ghost raw = v@.subrange(ra as int, rb as int);
    let ghost parts = split_by(raw, ',');
    proof {
        lemma_find_char(raw, ',');
    }
    let comma = find_char_in(&v, ra, rb, ',');
    let name_end = match comma {
        Some(c) => c,
        None => rb,
    };
    proof {
        if let Some(c) = comma {
            assert(parts[0] == raw.take(c - ra));
            assert(raw.take(c - ra) =~= v@.subrange(ra as int, c as int));
            assert(raw.skip(c - ra + 1) =~= v@.subrange(c + 1, rb as int));
            assert(parts.skip(1) =~= split_by(v@.subrange(c + 1, rb as int), ','));
        } else {
            assert(parts[0] == raw);
            assert(parts.skip(1) =~= Seq::<Seq<char>>::empty());
        }
    }
    let (na, nb) = trim_bounds(&v, ra, name_end);
    let name = string_of(&v, na, nb);
    let scope = BalloonScope::parse(name.as_str());
    let mut layers = match comma {
        Some(c) => read_layers(&v, c + 1, rb),
        None => Vec::new(),
    };
    proof {
        if comma is None {
            assert(entries_view(layers@) =~= Seq::<(Seq<char>, Seq<char>)>::empty());
        }
    }
    if layers.len() == 0 {
        let l = LayerEntry::new();
        layers.push(l);
        assert(entries_view(layers@) =~= seq![(Seq::<char>::empty(), "base"@)]);
    }
    FilesRow::Balloon { scope, layers }
}

/// A copy of a layer.
fn copy_layer(l: &LayerEntry) -> (c: LayerEntry)
    ensures
        entry_view(c) == entry_view(*l),
{
    LayerEntry { filename: l.filename.clone(), color_type: l.color_type.clone() }
}

/// A copy of a row.
fn copy_row(r: &FilesRow) -> (c: FilesRow)
    ensures
        row_view(c) == row_view(*r),
{
    match r {
        FilesRow::Comment(s) => FilesRow::Comment(s.clone()),
        FilesRow::Balloon { scope, layers } => {
            let mut ls: Vec<LayerEntry> = Vec::new();
            let mut i: usize = 0;
            while i < layers.len()
                invariant
                    i <= layers.len(),
                    entries_view(ls@) == entries_view(layers@).take(i as int),
                decreases layers.len() - i,
            {
                let l = copy_layer(&layers[i]);
                let ghost l0 = ls@;
                ls.push(l);
                assert(entries_view(ls@) =~= entries_view(l0).push(entry_view(l)));
                assert(entries_view(layers@).take(i + 1) =~= entries_view(layers@).take(i as int).push(
                    entry_view(layers@[i as int]),
                ));
                i = i + 1;
            }
            assert(entries_view(layers@).take(layers.len() as int) =~= entries_view(layers@));
            FilesRow::Balloon { scope: *scope, layers: ls }
        },
    }
}

/// The balloon rows among `rs`, in order.
pub open spec fn balloon_rows(rs: Seq<RowModel>) -> Seq<RowModel>
    decreases rs.len(),
{
    if rs.len() == 0 {
        Seq::empty()
    } else if rs.last() is Balloon {
        balloon_rows(rs.drop_last()).push(rs.last())
    } else {
        balloon_rows(rs.drop_last())
    }
}

/// The sort rank of a row's balloon name.
pub open spec fn row_rank(r: RowModel) -> int {
    match r {
        RowModel::Balloon(scope, _) => key_rank(sort_key_of(scope_name(scope))),
        RowModel::Comment(_) => 0,
    }
}

/// `x` inserted into rows sorted by rank: after every row whose rank is at
/// most its own.
#[verifier::opaque]
pub open spec fn insert_by_rank(o: Seq<RowModel>, x: RowModel) -> Seq<RowModel>
    decreases o.len(),
{
    if o.len() == 0 {
        seq![x]
    } else if row_rank(o.last()) <= row_rank(x) {
        o.push(x)
    } else {
        insert_by_rank(o.drop_last(), x).push(o.last())
    }
}

/// The rows sorted by rank, rows of equal rank in the order they came (each
/// row inserted after the rows before it of no greater rank).
#[verifier::opaque]
pub open spec fn sorted_by_rank(s: Seq<RowModel>) -> Seq<RowModel>
    decreases s.len(),
{
    if s.len() == 0 {
        Seq::empty()
    } else {
        insert_by_rank(sorted_by_rank(s.drop_last()), s.last())
    }
}

/// In rows sorted by rank, inserting before the first row of greater rank
/// is what `insert_by_rank` does.
proof fn lemma_insert_by_rank(o: Seq<RowModel>, x: RowModel, p: int)
    requires
        0 <= p <= o.len(),
        forall|a: int, c: int| 0 <= a < c < o.len() ==> row_rank(o[a]) <= row_rank(o[c]),
        forall|q: int| 0 <= q < p ==> row_rank(#[trigger] o[q]) <= row_rank(x),
        p < o.len() ==> row_rank(o[p]) > row_rank(x),
    ensures
        insert_by_rank(o, x) == o.insert(p, x),
    decreases o.len(),
{
    reveal(insert_by_rank);
    if o.len() == 0 {
        assert(o.insert(p, x) =~= seq![x]);
    } else if p == o.len() {
        assert(row_rank(o[o.len() - 1]) <= row_rank(x));
        assert(o.insert(p, x) =~= o.push(x));
    } else {
        assert(row_rank(o[p]) <= row_rank(o[o.len() - 1]) || p == o.len() - 1);
        let d = o.drop_last();
        lemma_insert_by_rank(d, x, p);
        assert(d.insert(p, x).push(o.last()) =~= o.insert(p, x));
    }
}

/// Sorting rows with one more at the end inserts it into the sorted rest.
proof fn lemma_sorted_push(s: Seq<RowModel>, x: RowModel)
    ensures
        sorted_by_rank(s.push(x)) == insert_by_rank(sorted_by_rank(s), x),
        sorted_by_rank(Seq::<RowModel>::empty()) == Seq::<RowModel>::empty(),
{
    reveal(sorted_by_rank);
    assert(s.push(x).drop_last() =~= s);
}

/// The balloon rows only, ordered by the sort key of their names (see
/// `sort_key_of`), rows whose keys rank equal keeping their order (see
/// `sorted_by_rank`); comment rows are dropped.
#[verifier::spinoff_prover]
#[verifier::rlimit(30)]
pub fn sort_balloon_rows(rows: &[FilesRow]) -> (r: Vec<FilesRow>)
    ensures
        rows_view(r@) == sorted_by_rank(balloon_rows(rows_view(rows@))),
        rows_view(r@).to_multiset() == balloon_rows(rows_view(rows@)).to_multiset(),
        forall|i: int| 0 <= i < r@.len() ==> (#[trigger] rows_view(r@)[i]) is Balloon,
        forall|i: int, j: int|
            0 <= i < j < r@.len() ==> row_rank(rows_view(r@)[i]) <= row_rank(rows_view(r@)[j]),
{
    let ghost rs = rows_view(rows@);
    let mut out: Vec<FilesRow> = Vec::new();
    let mut keys: Vec<(u8, u32, u32, u32)> = Vec::new();
    let mut i: usize = 0;
    assert(rows_view(out@) =~= balloon_rows(rs.take(0)));
    proof {
        lemma_sorted_push(Seq::<RowModel>::empty(), rs[0]);
    }
    while i < rows.len()
        invariant
            i <= rows.len(),
            rs == rows_view(rows@),
            keys@.len() == out@.len(),
            forall|q: int| 0 <= q < out@.len() ==> (#[trigger] rows_view(out@)[q]) is Balloon,
            forall|q: int|
                0 <= q < out@.len() ==> key_rank(#[trigger] keys@[q]) == row_rank(rows_view(out@)[q]),
            forall|a: int, c: int|
                0 <= a < c < out@.len() ==> row_rank(rows_view(out@)[a]) <= row_rank(
                    rows_view(out@)[c],
                ),
            rows_view(out@).to_multiset() == balloon_rows(rs.take(i as int)).to_multiset(),
            rows_view(out@) == sorted_by_rank(balloon_rows(rs.take(i as int))),
        decreases rows.len() - i,
    {
        assert(rs.take(i + 1).drop_last() =~= rs.take(i as int));
        assert(rs.take(i + 1).last() == rs[i as int]);
        match &rows[i] {
            FilesRow::Comment(_) => {},
            FilesRow::Balloon { scope, .. } => {
                let x = copy_row(&rows[i]);
                let name = scope.to_name();
                let kx = sort_key(name.as_str());
                let mut p: usize = 0;
                while p < out.len() && crate::naming::key_le_pub(keys[p], kx)
                    invariant
                        p <= out@.len() == keys@.len(),
                        forall|q: int| 0 <= q < p ==> key_rank(#[trigger] keys@[q]) <= key_rank(kx),
                    decreases out@.len() - p,
                {
                    p = p + 1;
                }
                let ghost o0 = rows_view(out@);
                let ghost k0 = keys@;
                let ghost xv = row_view(x);
                proof {
                    assert(forall|q: int| 0 <= q < p ==> row_rank(#[trigger] o0[q]) <= row_rank(xv)) by {
                        assert forall|q: int| 0 <= q < p implies row_rank(#[trigger] o0[q]) <= row_rank(xv) by {
                            assert(key_rank(k0[q]) == row_rank(o0[q]));
                        }
                    }
                    if p < o0.len() {
                        assert(key_rank(k0[p as int]) == row_rank(o0[p as int]));
                    }
                    lemma_insert_by_rank(o0, xv, p as int);
                    lemma_sorted_push(balloon_rows(rs.take(i as int)), xv);
                }
                out.insert(p, x);
                keys.insert(p, kx);
                proof {
                    assert(rows_view(out@) =~= o0.insert(p as int, xv));
                    vstd::seq_lib::to_multiset_insert(o0, p as int, xv);
                    vstd::seq_lib::to_multiset_build(balloon_rows(rs.take(i as int)), xv);
                    assert(row_rank(xv) == key_rank(kx));
                    let ov = rows_view(out@);
                    assert forall|q: int| 0 <= q < ov.len() implies key_rank(#[trigger] keys@[q]) == row_rank(ov[q]) && ov[q] is Balloon by {
                        if q < p {
                            assert(ov[q] == o0[q] && keys@[q] == k0[q]);
                        } else if q > p {
                            assert(ov[q] == o0[q - 1] && keys@[q] == k0[q - 1]);
                        }
                    }
                    assert forall|a: int, c: int| 0 <= a < c < ov.len() implies row_rank(ov[a]) <= row_rank(ov[c]) by {
                        assert(key_rank(keys@[a]) == row_rank(ov[a]));
                        assert(key_rank(keys@[c]) == row_rank(ov[c]));
                        if c < p {
                            assert(keys@[a] == k0[a] && keys@[c] == k0[c]);
                        } else if c == p {
                            assert(keys@[a] == k0[a]);
                        } else if a == p {
                            assert(keys@[c] == k0[c - 1]);
                            if p < c - 1 {
                                assert(row_rank(o0[p as int]) <= row_rank(o0[c - 1]));
                            }
                            assert(key_rank(k0[p as int]) == row_rank(o0[p as int]));
                            assert(key_rank(k0[c - 1]) == row_rank(o0[c - 1]));
                        } else if a < p {
                            assert(keys@[a] == k0[a] && keys@[c] == k0[c - 1]);
                            assert(key_rank(k0[p as int]) == row_rank(o0[p as int]));
                            assert(key_rank(k0[c - 1]) == row_rank(o0[c - 1]));
                            if p < c - 1 {
                                assert(row_rank(o0[p as int]) <= row_rank(o0[c - 1]));
                            }
                        } else {
                            assert(keys@[a] == k0[a - 1] && keys@[c] == k0[c - 1]);
                            assert(key_rank(k0[a - 1]) == row_rank(o0[a - 1]));
                            assert(key_rank(k0[c - 1]) == row_rank(o0[c - 1]));
                        }
                    }
                }
            },
        }
        i = i + 1;
    }
    assert(rs.take(rows.len() as int) =~= rs);
    out
}

/// The names of balloon rows.
pub open spec fn row_name(r: RowModel) -> Option<Seq<char>> {
    match r {
        RowModel::Balloon(scope, _) => Some(scope_name(scope)),
        RowModel::Comment(_) => None,
    }
}

/// Balloon names that two or more rows define.
pub open spec fn duplicate_names(rs: Seq<RowModel>) -> Set<Seq<char>> {
    Set::new(
        |n: Seq<char>|
            exists|i: int, j: int|
                0 <= i < j < rs.len() && row_name(rs[i]) == Some(n) && row_name(rs[j]) == Some(n),
    )
}

/// Balloon names that appear among the first `k` rows.
pub open spec fn names_before(rs: Seq<RowModel>, k: int) -> Set<Seq<char>> {
    Set::new(|n: Seq<char>| exists|i: int| 0 <= i < k && row_name(rs[i]) == Some(n))
}

/// The balloon names defined by more than one row, each once.
pub fn find_duplicates(rows: &[FilesRow]) -> (r: Vec<String>)
    ensures
        views(r@).no_duplicates(),
        views(r@).to_set() == duplicate_names(rows_view(rows@)),
{
    let ghost rs = rows_view(rows@);
    let mut seen: Vec<String> = Vec::new();
    let mut dups: Vec<String> = Vec::new();
    let mut i: usize = 0;
    assert(views(seen@).to_set() =~= names_before(rs, 0));
    assert(views(dups@).to_set() =~= duplicate_names(rs.take(0)));
    while i < rows.len()
        invariant
            i <= rows.len(),
            rs == rows_view(rows@),
            views(dups@).no_duplicates(),
            views(seen@).to_set() == names_before(rs, i as int),
            views(dups@).to_set() == duplicate_names(rs.take(i as int)),
        decreases rows.len() - i,
    {
        let ghost t0 = rs.take(i as int);
        let ghost t1 = rs.take(i + 1);
        let ghost d0 = views(dups@);
        let ghost s0 = views(seen@);
        match &rows[i] {
            FilesRow::Comment(_) => {
                assert(row_name(rs[i as int]) is None);
                assert(names_before(rs, i + 1) =~= names_before(rs, i as int)) by {
                    assert forall|n: Seq<char>| names_before(rs, i + 1).contains(n) implies names_before(rs, i as int).contains(n) by {
                        let k = choose|k: int| 0 <= k < i + 1 && row_name(rs[k]) == Some(n);
                        assert(k < i);
                    }
                }
                assert(duplicate_names(t1) =~= duplicate_names(t0)) by {
                    assert forall|n: Seq<char>| duplicate_names(t1).contains(n) implies duplicate_names(t0).contains(n) by {
                        let (a, b) = choose|a: int, b: int| 0 <= a < b < t1.len() && row_name(t1[a]) == Some(n) && row_name(t1[b]) == Some(n);
                        assert(t1[b] == rs[b]);
                        assert(b < i);
                        assert(t0[a] == t1[a] && t0[b] == t1[b]);
                    }
                    assert forall|n: Seq<char>| duplicate_names(t0).contains(n) implies duplicate_names(t1).contains(n) by {
                        let (a, b) = choose|a: int, b: int| 0 <= a < b < t0.len() && row_name(t0[a]) == Some(n) && row_name(t0[b]) == Some(n);
                        assert(t0[a] == t1[a] && t0[b] == t1[b]);
                    }
                }
            },
            FilesRow::Balloon { scope, .. } => {
                let name = scope.to_name();
                let ghost n = name@;
                assert(row_name(rs[i as int]) == Some(n));
                let was_seen = in_names(&seen, name.as_str());
                if was_seen {
                    if !in_names(&dups, name.as_str()) {
                        let nm = name.clone();
                        dups.push(nm);
                        assert(views(dups@) =~= d0.push(n));
                        proof {
                            d0.lemma_push_to_set_commute(n);
                        }
                    }
                } else {
                    let nm = name.clone();
                    seen.push(nm);
                    assert(views(seen@) =~= s0.push(n));
                    proof {
                        s0.lemma_push_to_set_commute(n);
                    }
                }
                proof {
                    assert(names_before(rs, i + 1) =~= names_before(rs, i as int).insert(n)) by {
                        assert forall|m: Seq<char>| names_before(rs, i + 1).contains(m) implies names_before(rs, i as int).insert(n).contains(m) by {
                            let k = choose|k: int| 0 <= k < i + 1 && row_name(rs[k]) == Some(m);
                            if k < i {
                                assert(names_before(rs, i as int).contains(m));
                            }
                        }
                        assert(names_before(rs, i + 1).contains(n));
                        assert forall|m: Seq<char>| names_before(rs, i as int).contains(m) implies names_before(rs, i + 1).contains(m) by {
                            let k = choose|k: int| 0 <= k < i && row_name(rs[k]) == Some(m);
                        }
                    }
                    assert forall|m: Seq<char>| duplicate_names(t1).contains(m) <==> (duplicate_names(t0).contains(m) || (m == n && names_before(rs, i as int).contains(n))) by {
                        if duplicate_names(t1).contains(m) {
                            let (a, b) = choose|a: int, b: int| 0 <= a < b < t1.len() && row_name(t1[a]) == Some(m) && row_name(t1[b]) == Some(m);
                            assert(t1[a] == rs[a] && t1[b] == rs[b]);
                            if b < i {
                                assert(t0[a] == t1[a] && t0[b] == t1[b]);
                            } else {
                                assert(names_before(rs, i as int).contains(m));
                            }
                        }
                        if duplicate_names(t0).contains(m) {
                            let (a, b) = choose|a: int, b: int| 0 <= a < b < t0.len() && row_name(t0[a]) == Some(m) && row_name(t0[b]) == Some(m);
                            assert(t0[a] == t1[a] && t0[b] == t1[b]);
                        }
                        if m == n && names_before(rs, i as int).contains(n) {
                            let k = choose|k: int| 0 <= k < i && row_name(rs[k]) == Some(n);
                            assert(t1[k] == rs[k] && t1[i as int] == rs[i as int]);
                        }
                    }
                    assert(views(dups@).to_set() =~= duplicate_names(t1));
                }
            },
        }
        i = i + 1;
    }
    assert(rs.take(rows.len() as int) =~= rs);
    dups
}

/// `p` is found right after a prefix `a` that holds no first character of `p`.
pub proof fn lemma_find_sub_after(a: Seq<char>, p: Seq<char>, b: Seq<char>)
    requires
        p.len() > 0,
        forall|i: int| 0 <= i < a.len() ==> a[i] != p[0],
    ensures
        find_sub(a + p + b, p) == Some(a.len() as int),
    decreases a.len(),
{
    let s = a + p + b;
    if a.len() == 0 {
        assert(s.subrange(0, p.len() as int) =~= p);
    } else {
        assert(s.subrange(0, p.len() as int)[0] == a[0]);
        assert(s.skip(1) =~= a.skip(1) + p + b);
        lemma_find_sub_after(a.skip(1), p, b);
    }
}

/// A numeral holds only digits and a leading `-`.
pub proof fn lemma_numeral_chars(n: int)
    ensures
        forall|i: int| 0 <= i < int_numeral(n).len() ==> (#[trigger] int_numeral(n)[i] == '-' || is_digit(int_numeral(n)[i])),
{
    if n < 0 {
        lemma_nat_digits((-n) as nat);
        let d = nat_digits((-n) as nat);
        assert forall|i: int| 0 <= i < int_numeral(n).len() implies (#[trigger] int_numeral(n)[i] == '-' || is_digit(int_numeral(n)[i])) by {
            if i > 0 {
                assert(int_numeral(n)[i] == d[i - 1]);
            }
        }
    } else {
        lemma_nat_digits(n as nat);
    }
}

/// Reading back the name of a scope gives the scope (an input box
/// balloon's number is read as at most 4).
pub proof fn law_scope_name_round_trip(s: BalloonScope)
    requires
        s matches BalloonScope::BalloonC { id } ==> id <= 4,
    ensures
        scope_of(scope_name(s)) == s,
{
    reveal_strlit("balloons");
    reveal_strlit("balloonk");
    reveal_strlit("balloonp");
    reveal_strlit("balloonc");
    reveal_strlit("def");
    let name = scope_name(s);
    match s {
        BalloonScope::Normal { scope, id } => {
            lemma_parse_numeral(id as int, false, 0, 0xffff_ffff);
            if scope == 0 {
                assert(name.subrange(0, 8) =~= "balloons"@);
                assert(name.skip(8) =~= int_numeral(id as int));
                assert(name.subrange(0, 8)[7] != "balloonc"@[7]);
            } else if scope == 1 {
                assert(name.subrange(0, 8) =~= "balloonk"@);
                assert(name.skip(8) =~= int_numeral(id as int));
                assert(name.subrange(0, 8)[7] != "balloonc"@[7]);
                assert(name.subrange(0, 8)[7] != "balloons"@[7]);
            } else {
                let a = int_numeral(scope as int);
                let b = int_numeral(id as int);
                lemma_parse_numeral(scope as int, true, i32::MIN as int, i32::MAX as int);
                lemma_numeral_chars(scope as int);
                assert(name.subrange(0, 8) =~= "balloonp"@);
                assert(name.subrange(0, 8)[7] != "balloonc"@[7]);
                assert(name.subrange(0, 8)[7] != "balloons"@[7]);
                assert(name.subrange(0, 8)[7] != "balloonk"@[7]);
                let rest = name.skip(8);
                assert(rest =~= a + "def"@ + b);
                assert forall|i: int| 0 <= i < a.len() implies a[i] != "def"@[0] by {
                    assert(a[i] == '-' || is_digit(a[i]));
                }
                lemma_find_sub_after(a, "def"@, b);
                assert(rest.take(a.len() as int) =~= a);
                assert(rest.skip(a.len() + 3int) =~= b);
            }
        },
        BalloonScope::BalloonC { id } => {
            lemma_parse_numeral(id as int, false, 0, usize::MAX as int);
            assert(name.subrange(0, 8) =~= "balloonc"@);
            assert(name.skip(8) =~= int_numeral(id as int));
        },
    }
}

/// Leaving out whitespace at the ends brings in no character.
proof fn lemma_trim_free(x: Seq<char>, c: char)
    requires
        !x.contains(c),
    ensures
        !trim(x).contains(c),
        !trim_start(x).contains(c),
    decreases x.len(),
{
    if x.len() > 0 && is_ws(x[0]) {
        assert(!x.drop_first().contains(c)) by {
            if x.drop_first().contains(c) {
                let j = choose|j: int| 0 <= j < x.drop_first().len() && x.drop_first()[j] == c;
                assert(x[j + 1] == c);
            }
        }
        lemma_trim_free(x.drop_first(), c);
    } else {
        lemma_trim_end_free(x, c);
    }
}

/// Leaving out whitespace at the end brings in no character.
proof fn lemma_trim_end_free(x: Seq<char>, c: char)
    requires
        !x.contains(c),
    ensures
        !trim_end(x).contains(c),
    decreases x.len(),
{
    if x.len() > 0 && is_ws(x.last()) {
        assert(!x.drop_last().contains(c)) by {
            if x.drop_last().contains(c) {
                let j = choose|j: int| 0 <= j < x.drop_last().len() && x.drop_last()[j] == c;
                assert(x[j] == c);
            }
        }
        lemma_trim_end_free(x.drop_last(), c);
    }
}

/// Trimming twice is trimming once.
proof fn lemma_trim_idem(x: Seq<char>)
    ensures
        trim(trim(x)) == trim(x),
    decreases x.len(),
{
    if x.len() > 0 && is_ws(x[0]) {
        lemma_trim_idem(x.drop_first());
    } else if x.len() > 0 {
        let y = trim_end(x);
        lemma_trim_end_last(x);
        lemma_trim_end_prefix(x, 1);
        lemma_trim_end_len(x);
        assert(1 <= y.len() <= x.len());
        assert(y == x.take(y.len() as int));
        assert(y[0] == x.take(y.len() as int)[0]);
        assert(x.take(y.len() as int)[0] == x[0]);
        lemma_trim_start(y);
        assert(trim_start(y) == y);
    }
}

/// A layer as the row editor reads one: neither side holds a comma, the
/// file name holds no colon, and both sides are trimmed.
pub open spec fn clean_layer(e: (Seq<char>, Seq<char>)) -> bool {
    &&& !e.0.contains(',') && !e.1.contains(',') && !e.0.contains(':')
    &&& trim(e.0) == e.0 && trim(e.1) == e.1
}

/// The token a layer is written as: `file:color_type`.
pub open spec fn layer_token(e: (Seq<char>, Seq<char>)) -> Seq<char> {
    e.0 + seq![':'] + e.1
}

/// A trimmed token without comma reads as a clean layer.
proof fn lemma_layer_of_clean(t: Seq<char>)
    requires
        trim(t) == t,
        !t.contains(','),
    ensures
        clean_layer(layer_of(t)),
{
    lemma_find_char(t, ':');
    match find_char(t, ':') {
        Some(c) => {
            let f = t.take(c);
            let k = t.skip(c + 1);
            assert(!f.contains(':')) by {
                if f.contains(':') {
                    let j = choose|j: int| 0 <= j < f.len() && f[j] == ':';
                    assert(t[j] == ':');
                }
            }
            assert(!f.contains(',')) by {
                if f.contains(',') {
                    let j = choose|j: int| 0 <= j < f.len() && f[j] == ',';
                    assert(t[j] == ',');
                }
            }
            assert(!k.contains(',')) by {
                if k.contains(',') {
                    let j = choose|j: int| 0 <= j < k.len() && k[j] == ',';
                    assert(t[j + c + 1] == ',');
                }
            }
            lemma_trim_free(f, ':');
            lemma_trim_free(f, ',');
            lemma_trim_free(k, ',');
            lemma_trim_idem(f);
            lemma_trim_idem(k);
        },
        None => {
            assert(!t.contains(':')) by {
                if t.contains(':') {
                    let j = choose|j: int| 0 <= j < t.len() && t[j] == ':';
                }
            }
            reveal_strlit("base");
            lemma_plain_word("base"@);
            assert(!"base"@.contains(',')) by {
                if "base"@.contains(',') {
                    let j = choose|j: int| 0 <= j < "base"@.len() && "base"@[j] == ',';
                }
            }
        },
    }
}

/// The layers read from tokens without commas are clean.
proof fn lemma_layers_of_clean(toks: Seq<Seq<char>>)
    requires
        forall|i: int| 0 <= i < toks.len() ==> !(#[trigger] toks[i]).contains(','),
    ensures
        forall|i: int| 0 <= i < layers_of(toks).len() ==> clean_layer(#[trigger] layers_of(toks)[i]),
    decreases toks.len(),
{
    if toks.len() > 0 {
        let d = toks.drop_last();
        assert forall|i: int| 0 <= i < d.len() implies !(#[trigger] d[i]).contains(',') by {
            assert(d[i] == toks[i]);
        }
        lemma_layers_of_clean(d);
        let t = trim(toks.last());
        let r = layers_of(d);
        if t.len() > 0 {
            assert(!toks[toks.len() - 1].contains(','));
            lemma_trim_free(toks.last(), ',');
            lemma_trim_idem(toks.last());
            lemma_layer_of_clean(t);
            assert forall|i: int| 0 <= i < layers_of(toks).len() implies clean_layer(#[trigger] layers_of(toks)[i]) by {
                if i < r.len() {
                    assert(layers_of(toks)[i] == r[i]);
                }
            }
        }
    }
}

/// A text whose first and last characters are not whitespace is trimmed.
proof fn lemma_trimmed_ends(x: Seq<char>)
    requires
        x.len() > 0,
        !is_ws(x[0]),
        !is_ws(x.last()),
    ensures
        trim(x) == x,
{
    lemma_trim_start(x);
    lemma_trim_end_prefix(x, x.len() as int);
    lemma_trim_end_len(x);
    assert(x.take(x.len() as int) =~= x);
}

/// A clean layer's token is trimmed, holds no comma, and reads back as the layer.
proof fn lemma_layer_token(e: (Seq<char>, Seq<char>))
    requires
        clean_layer(e),
    ensures
        trim(layer_token(e)) == layer_token(e),
        layer_token(e).len() > 0,
        !layer_token(e).contains(','),
        layer_of(layer_token(e)) == e,
{
    let t = layer_token(e);
    crate::descript_laws::lemma_find_sep_after_pub(e.0, ':', e.1);
    assert(t.take(e.0.len() as int) =~= e.0);
    assert(t.skip(e.0.len() + 1int) =~= e.1);
    assert(!is_ws(':'));
    if e.0.len() > 0 {
        lemma_trimmed(e.0);
        assert(t[0] == e.0[0]);
    } else {
        assert(t[0] == ':');
    }
    if e.1.len() > 0 {
        lemma_trimmed(e.1);
        assert(t.last() == e.1.last());
    } else {
        assert(t.last() == ':');
    }
    lemma_trimmed_ends(t);
    assert(!t.contains(',')) by {
        if t.contains(',') {
            let j = choose|j: int| 0 <= j < t.len() && t[j] == ',';
            if j < e.0.len() {
                assert(e.0[j] == ',');
            } else if j > e.0.len() {
                assert(e.1[j - e.0.len() - 1] == ',');
            }
        }
    }
}

/// Reading the tokens of clean layers gives the layers back.
proof fn lemma_layers_of_tokens(ls: Seq<(Seq<char>, Seq<char>)>)
    requires
        forall|i: int| 0 <= i < ls.len() ==> clean_layer(#[trigger] ls[i]),
    ensures
        layers_of(ls.map_values(|e: (Seq<char>, Seq<char>)| layer_token(e))) == ls,
    decreases ls.len(),
{
    let f = |e: (Seq<char>, Seq<char>)| layer_token(e);
    if ls.len() > 0 {
        let d = ls.drop_last();
        assert forall|i: int| 0 <= i < d.len() implies clean_layer(#[trigger] d[i]) by {
            assert(d[i] == ls[i]);
        }
        lemma_layers_of_tokens(d);
        assert(ls.map_values(f).drop_last() =~= d.map_values(f));
        assert(clean_layer(ls[ls.len() - 1]));
        lemma_layer_token(ls.last());
        assert(d.push(ls.last()) =~= ls);
    }
}

/// A name followed by the layers' text is the name and the layer tokens
/// joined with commas.
proof fn lemma_layers_text_join(x: Seq<char>, ls: Seq<(Seq<char>, Seq<char>)>)
    ensures
        x + layers_text(ls) == join(seq![x] + ls.map_values(|e: (Seq<char>, Seq<char>)| layer_token(e)), seq![',']),
    decreases ls.len(),
{
    let f = |e: (Seq<char>, Seq<char>)| layer_token(e);
    reveal_strlit(",");
    reveal_strlit(":");
    if ls.len() == 0 {
        assert(seq![x] + ls.map_values(f) =~= seq![x]);
        assert(x + layers_text(ls) =~= x);
    } else {
        let d = ls.drop_last();
        lemma_layers_text_join(x, d);
        let all = seq![x] + ls.map_values(f);
        assert(all.drop_last() =~= seq![x] + d.map_values(f));
        assert(all.last() == layer_token(ls.last()));
        assert(join(all, seq![',']) == join(all.drop_last(), seq![',']) + seq![','] + all.last());
        assert(x + layers_text(ls) =~= x + layers_text(d) + seq![','] + layer_token(ls.last()));
    }
}

/// A numeral ends in a digit.
proof fn lemma_numeral_last(n: int)
    ensures
        int_numeral(n).len() > 0,
        is_digit(int_numeral(n).last()),
{
    if n < 0 {
        lemma_nat_digits((-n) as nat);
        let d = nat_digits((-n) as nat);
        assert(int_numeral(n).last() == d.last());
        assert(is_digit(d[d.len() - 1]));
    } else {
        lemma_nat_digits(n as nat);
        let d = nat_digits(n as nat);
        assert(is_digit(d[d.len() - 1]));
    }
}

/// A scope's name starts with `b`, ends in a digit, is trimmed and holds no comma.
proof fn lemma_scope_name_shape(sc: BalloonScope)
    ensures
        scope_name(sc).len() > 0,
        scope_name(sc)[0] == 'b',
        trim(scope_name(sc)) == scope_name(sc),
        !is_ws(scope_name(sc).last()),
        !scope_name(sc).contains(','),
        !scope_name(sc).contains('\n'),
{
    reveal_strlit("balloons");
    reveal_strlit("balloonk");
    reveal_strlit("balloonp");
    reveal_strlit("balloonc");
    reveal_strlit("def");
    let name = scope_name(sc);
    let (a, b) = match sc {
        BalloonScope::Normal { scope, id } => (scope as int, id as int),
        BalloonScope::BalloonC { id } => (0, id as int),
    };
    lemma_numeral_last(b);
    lemma_numeral_chars(a);
    lemma_numeral_chars(b);
    assert(name.last() == int_numeral(b).last());
    assert(!is_ws(name.last()));
    lemma_trimmed_ends(name);
    assert forall|ch: char| ch == ',' || ch == '\n' implies !name.contains(ch) by {
        if name.contains(ch) {
            let j = choose|j: int| 0 <= j < name.len() && name[j] == ch;
            match sc {
                BalloonScope::Normal { scope, id } => {
                    if scope == 0 || scope == 1 {
                        if j >= 8 {
                            assert(name[j] == int_numeral(b)[j - 8]);
                        }
                    } else {
                        let na = int_numeral(a);
                        if 8 <= j < 8 + na.len() {
                            assert(name[j] == na[j - 8]);
                        } else if j >= 8 + na.len() + 3 {
                            assert(name[j] == int_numeral(b)[j - 8 - na.len() - 3]);
                        }
                    }
                },
                BalloonScope::BalloonC { id } => {
                    if j >= 8 {
                        assert(name[j] == int_numeral(b)[j - 8]);
                    }
                },
            }
        }
    }
}

/// A scope as `scope_of` gives one: an input box balloon's number at most 4.
pub open spec fn read_scope(sc: BalloonScope) -> bool {
    sc matches BalloonScope::BalloonC { id } ==> id <= 4
}

/// The line of a balloon row reads back as the row.
proof fn lemma_balloon_line_round_trip(sc: BalloonScope, ls: Seq<(Seq<char>, Seq<char>)>)
    requires
        read_scope(sc),
        forall|i: int| 0 <= i < ls.len() ==> clean_layer(#[trigger] ls[i]),
    ensures
        row_of_line(balloon_line(sc, ls)) == RowModel::Balloon(sc, ls),
{
    let f = |e: (Seq<char>, Seq<char>)| layer_token(e);
    let name = scope_name(sc);
    let line = balloon_line(sc, ls);
    let toks = ls.map_values(f);
    lemma_scope_name_shape(sc);
    lemma_layers_text_join(name, ls);
    let ps = seq![name] + toks;
    assert forall|i: int| 0 <= i < ps.len() implies !(#[trigger] ps[i]).contains(',') by {
        if i > 0 {
            assert(ps[i] == layer_token(ls[i - 1]));
            lemma_layer_token(ls[i - 1]);
        }
    }
    lemma_pieces_of_join_by(ps, ',');
    assert(split_by(line, ',') == ps);
    assert(ps.skip(1) =~= toks);
    lemma_layers_of_tokens(ls);
    law_scope_name_round_trip(sc);
    assert(line[0] == 'b');
    assert(!is_ws('b'));
    lemma_trim_start(line);
    lemma_trim_end_prefix(line, 1);
    lemma_trim_end_len(line);
    assert(trim_start(line) == line);
    let t = trim(line);
    assert(t == trim_end(line));
    assert(1 <= t.len() <= line.len());
    assert(t == line.take(t.len() as int));
    assert(t[0] == line.take(t.len() as int)[0]);
    assert(line.take(t.len() as int)[0] == line[0]);
    assert(t[0] == 'b');
    assert(!starts_with(t, crate::descript::comment_mark())) by {
        if starts_with(t, crate::descript::comment_mark()) {
            assert(t.subrange(0, 2)[0] == t[0]);
        }
    }
}

/// A row read from a line, written and read again, is written the same:
/// a balloon row reads back as itself, a comment row as a comment written
/// the same way.
pub proof fn law_row_round_trip(l: Seq<char>)
    ensures
        row_line(row_of_line(row_line(row_of_line(l)))) == row_line(row_of_line(l)),
        row_of_line(l) is Balloon ==> row_of_line(row_line(row_of_line(l))) == row_of_line(l),
{
    reveal_strlit("// ");
    reveal_strlit("//");
    let r = row_of_line(l);
    let t = trim(l);
    let cm = crate::descript::comment_mark();
    assert(cm =~= "//"@);
    let blank = "// "@;
    assert(trim_start(blank) == blank);
    assert(blank.drop_last() =~= "//"@);
    assert(trim_end(blank) == trim_end("//"@));
    assert(trim(blank) =~= "//"@);
    let e = Seq::<char>::empty();
    assert(trim(e) =~= e);
    if t.len() == 0 {
    } else if starts_with(t, cm) {
        if t == "//"@ {
        } else {
            assert(row_line(r) == l);
        }
    } else {
        let parts = split_by(l, ',');
        lemma_pieces_no_sep(l, ',');
        let sc = scope_of(trim(parts[0]));
        let ls = layers_of(parts.skip(1));
        assert forall|i: int| 0 <= i < parts.skip(1).len() implies !(#[trigger] parts.skip(1)[i]).contains(',') by {
            assert(parts.skip(1)[i] == parts[i + 1]);
        }
        lemma_layers_of_clean(parts.skip(1));
        lemma_balloon_line_round_trip(sc, ls);
    }
}

/// Pieces without `d`, joined with a separator without `d`, hold no `d`.
proof fn lemma_join_free(ps: Seq<Seq<char>>, sep: Seq<char>, d: char)
    requires
        forall|i: int| 0 <= i < ps.len() ==> !(#[trigger] ps[i]).contains(d),
        !sep.contains(d),
    ensures
        !join(ps, sep).contains(d),
    decreases ps.len(),
{
    if ps.len() > 1 {
        let q = ps.drop_last();
        assert forall|i: int| 0 <= i < q.len() implies !(#[trigger] q[i]).contains(d) by {
            assert(q[i] == ps[i]);
        }
        lemma_join_free(q, sep, d);
        let a = join(q, sep);
        let l = ps.last();
        assert(!ps[ps.len() - 1].contains(d));
        let x = a + sep + l;
        if x.contains(d) {
            let j = choose|j: int| 0 <= j < x.len() && x[j] == d;
            if j < a.len() {
                assert(a[j] == d);
            } else if j < a.len() + sep.len() {
                assert(sep[j - a.len()] == d);
            } else {
                assert(l[j - a.len() - sep.len()] == d);
            }
        }
    } else if ps.len() == 1 {
        assert(!ps[0].contains(d));
    }
}

/// The pieces of a text without `d` hold no `d`.
proof fn lemma_pieces_free(t: Seq<char>, c: char, d: char)
    requires
        !t.contains(d),
    ensures
        forall|i: int| 0 <= i < split_by(t, c).len() ==> !(#[trigger] split_by(t, c)[i]).contains(d),
    decreases t.len(),
{
    lemma_find_char(t, c);
    let ps = split_by(t, c);
    match find_char(t, c) {
        None => {},
        Some(i) => {
            let rest = t.skip(i + 1);
            assert(!rest.contains(d)) by {
                if rest.contains(d) {
                    let j = choose|j: int| 0 <= j < rest.len() && rest[j] == d;
                    assert(t[j + i + 1] == d);
                }
            }
            lemma_pieces_free(rest, c, d);
            let p0 = t.take(i);
            assert(!p0.contains(d)) by {
                if p0.contains(d) {
                    let j = choose|j: int| 0 <= j < p0.len() && p0[j] == d;
                    assert(t[j] == d);
                }
            }
            assert forall|k: int| 0 <= k < ps.len() implies !(#[trigger] ps[k]).contains(d) by {
                if k > 0 {
                    assert(ps[k] == split_by(rest, c)[k - 1]);
                }
            }
        },
    }
}

/// The lines of a text without `\r` hold neither `\r` nor a line feed.
proof fn lemma_lines_free(t: Seq<char>)
    requires
        !t.contains('\r'),
    ensures
        forall|i: int| 0 <= i < split_lines(t).len() ==> !(#[trigger] split_lines(t)[i]).contains('\r')
            && !split_lines(t)[i].contains('\n'),
{
    let ps = split_by(t, '\n');
    lemma_split_by_len(t, '\n');
    lemma_split_lines_pieces(t);
    lemma_lines_shape(ps);
    lemma_pieces_free(t, '\n', '\r');
    lemma_pieces_no_sep(t, '\n');
    let ls = split_lines(t);
    assert forall|i: int| 0 <= i < ls.len() implies !(#[trigger] ls[i]).contains('\r') && !ls[i].contains('\n') by {
        assert(!ps[i].contains('\r') && !ps[i].contains('\n'));
        assert(ls[i] == strip_cr(ps[i]) || ls[i] == ps[i]);
        if ls[i] != ps[i] {
            assert(ls[i] == ps[i].drop_last());
            if ls[i].contains('\r') {
                let j = choose|j: int| 0 <= j < ls[i].len() && ls[i][j] == '\r';
                assert(ps[i][j] == '\r');
            }
            if ls[i].contains('\n') {
                let j = choose|j: int| 0 <= j < ls[i].len() && ls[i][j] == '\n';
                assert(ps[i][j] == '\n');
            }
        }
    }
}

/// A layer read from a token without line feed holds none.
proof fn lemma_layers_no_lf(toks: Seq<Seq<char>>)
    requires
        forall|i: int| 0 <= i < toks.len() ==> !(#[trigger] toks[i]).contains('\n'),
    ensures
        forall|i: int| 0 <= i < layers_of(toks).len() ==> !(#[trigger] layers_of(toks)[i]).0.contains('\n')
            && !layers_of(toks)[i].1.contains('\n'),
    decreases toks.len(),
{
    if toks.len() > 0 {
        let d = toks.drop_last();
        assert forall|i: int| 0 <= i < d.len() implies !(#[trigger] d[i]).contains('\n') by {
            assert(d[i] == toks[i]);
        }
        lemma_layers_no_lf(d);
        let r = layers_of(d);
        let t = trim(toks.last());
        if t.len() > 0 {
            assert(!toks[toks.len() - 1].contains('\n'));
            lemma_trim_free(toks.last(), '\n');
            let e = layer_of(t);
            lemma_find_char(t, ':');
            match find_char(t, ':') {
                Some(c) => {
                    let f = t.take(c);
                    let k = t.skip(c + 1);
                    assert(!f.contains('\n')) by {
                        if f.contains('\n') {
                            let j = choose|j: int| 0 <= j < f.len() && f[j] == '\n';
                            assert(t[j] == '\n');
                        }
                    }
                    assert(!k.contains('\n')) by {
                        if k.contains('\n') {
                            let j = choose|j: int| 0 <= j < k.len() && k[j] == '\n';
                            assert(t[j + c + 1] == '\n');
                        }
                    }
                    lemma_trim_free(f, '\n');
                    lemma_trim_free(k, '\n');
                },
                None => {
                    reveal_strlit("base");
                    assert(!"base"@.contains('\n')) by {
                        if "base"@.contains('\n') {
                            let j = choose|j: int| 0 <= j < "base"@.len() && "base"@[j] == '\n';
                        }
                    }
                },
            }
            assert forall|i: int| 0 <= i < layers_of(toks).len() implies !(#[trigger] layers_of(toks)[i]).0.contains('\n')
                && !layers_of(toks)[i].1.contains('\n') by {
                if i < r.len() {
                    assert(layers_of(toks)[i] == r[i]);
                }
            }
        }
    }
}

/// The line a row read from a line without `\r` or line feed is written as
/// holds no line feed and does not end in `\r`.
proof fn lemma_row_line_shape(l: Seq<char>)
    requires
        !l.contains('\r'),
        !l.contains('\n'),
    ensures
        !row_line(row_of_line(l)).contains('\n'),
        row_line(row_of_line(l)).len() > 0 ==> row_line(row_of_line(l)).last() != '\r',
{
    let r = row_of_line(l);
    match r {
        RowModel::Comment(s) => {
            reveal_strlit("// ");
            reveal_strlit("//");
            let blank = "// "@;
            assert(trim_start(blank) == blank);
            assert(blank.drop_last() =~= "//"@);
            assert(trim_end(blank) == trim_end("//"@));
            assert(trim(blank) =~= "//"@);
            let x = row_line(r);
            assert(x == s || x.len() == 0);
            if x.len() > 0 {
                assert(s != blank);
                assert(x == l);
                assert(x[x.len() - 1] != '\r');
            }
        },
        RowModel::Balloon(sc, ls) => {
            let parts = split_by(l, ',');
            lemma_pieces_no_sep(l, ',');
            lemma_pieces_free(l, ',', '\n');
            assert forall|i: int| 0 <= i < parts.skip(1).len() implies !(#[trigger] parts.skip(1)[i]).contains(',')
                && !parts.skip(1)[i].contains('\n') by {
                assert(parts.skip(1)[i] == parts[i + 1]);
            }
            lemma_layers_of_clean(parts.skip(1));
            lemma_layers_no_lf(parts.skip(1));
            let f = |e: (Seq<char>, Seq<char>)| layer_token(e);
            let name = scope_name(sc);
            let line = balloon_line(sc, ls);
            lemma_scope_name_shape(sc);
            lemma_layers_text_join(name, ls);
            let ps = seq![name] + ls.map_values(f);
            assert forall|i: int| 0 <= i < ps.len() implies !(#[trigger] ps[i]).contains('\n') by {
                if i > 0 {
                    let e = ls[i - 1];
                    assert(ps[i] == layer_token(e));
                    if ps[i].contains('\n') {
                        let j = choose|j: int| 0 <= j < ps[i].len() && ps[i][j] == '\n';
                        if j < e.0.len() {
                            assert(e.0[j] == '\n');
                        } else if j > e.0.len() {
                            assert(e.1[j - e.0.len() - 1] == '\n');
                        }
                    }
                }
            }
            assert(!seq![','].contains('\n')) by {
                if seq![','].contains('\n') {
                    let j = choose|j: int| 0 <= j < seq![','].len() && seq![','][j] == '\n';
                }
            }
            lemma_join_free(ps, seq![','], '\n');
            assert(is_ws('\r'));
            if ls.len() == 0 {
                assert(line =~= name);
            } else {
                let e = ls.last();
                assert(clean_layer(ls[ls.len() - 1]));
                assert(line == name + layers_text(ls.drop_last()) + ","@ + e.0 + ":"@ + e.1);
                reveal_strlit(":");
                if e.1.len() > 0 {
                    lemma_trimmed(e.1);
                    assert(line.last() == e.1.last());
                } else {
                    assert(line.last() == ':');
                }
            }
        },
    }
}

/// Lines without line feeds, none ending in `\r`, written one per line
/// read back as themselves.
proof fn lemma_split_written(ls: Seq<Seq<char>>)
    requires
        ls.len() > 0,
        forall|i: int| 0 <= i < ls.len() ==> !(#[trigger] ls[i]).contains('\n'),
        forall|i: int| 0 <= i < ls.len() && (#[trigger] ls[i]).len() > 0 ==> ls[i].last() != '\r',
    ensures
        split_lines(join(ls, "\n"@) + "\n"@) == ls,
{
    reveal_strlit("\n");
    assert("\n"@ =~= seq!['\n']);
    let e = Seq::<char>::empty();
    let q = ls.push(e);
    assert(q.drop_last() =~= ls);
    assert(join(q, "\n"@) == join(ls, "\n"@) + "\n"@ + e);
    assert(join(ls, "\n"@) + "\n"@ + e =~= join(ls, "\n"@) + "\n"@);
    assert forall|i: int| 0 <= i < q.len() implies !(#[trigger] q[i]).contains('\n') by {
        if i < ls.len() {
            assert(q[i] == ls[i]);
        }
    }
    lemma_pieces_of_join_by(q, '\n');
    let x = join(ls, "\n"@) + "\n"@;
    assert(split_by(x, '\n') == q);
    lemma_split_lines_pieces(x);
    lemma_lines_shape(q);
    let r = lines_of_pieces(q);
    assert forall|i: int| 0 <= i < ls.len() implies #[trigger] r[i] == ls[i] by {
        assert(q[i] == ls[i]);
        assert(r[i] == strip_cr(q[i]));
    }
    assert(r =~= ls);
}

/// The text the row editor writes back for a text: its rows, each written as its line.
pub open spec fn normalized_rows_text(t: Seq<char>) -> Seq<char> {
    rows_text(rows_of_text(t))
}

/// Reading `slbe_files.txt` into rows and writing them back, done twice,
/// gives what doing it once gives; the text keeps one line per line, and
/// each line is one row.
///
/// This holds for a text without `\r`: a line that ends in `\r` before its
/// line feed would lose it only on the second read.
pub proof fn law_rows_normalize_twice(t: Seq<char>)
    requires
        !t.contains('\r'),
    ensures
        normalized_rows_text(normalized_rows_text(t)) == normalized_rows_text(t),
        split_lines(normalized_rows_text(t)).len() == split_lines(t).len(),
        rows_of_text(t).len() == split_lines(t).len(),
{
    let f = |r: RowModel| row_line(r);
    let g = |l: Seq<char>| row_of_line(l);
    let src = split_lines(t);
    let rs = rows_of_text(t);
    let ls = rs.map_values(f);
    let n1 = normalized_rows_text(t);
    lemma_lines_free(t);
    assert forall|i: int| 0 <= i < ls.len() implies !(#[trigger] ls[i]).contains('\n') && (ls[i].len() > 0
        ==> ls[i].last() != '\r') && ls[i] == row_line(row_of_line(src[i])) by {
        assert(rs[i] == row_of_line(src[i]));
        lemma_row_line_shape(src[i]);
    }
    if rs.len() == 0 {
        assert(n1 == Seq::<char>::empty());
        assert(split_lines(n1) =~= Seq::<Seq<char>>::empty());
        assert(rows_of_text(n1) =~= Seq::<RowModel>::empty());
    } else {
        lemma_split_written(ls);
        assert(split_lines(n1) == ls);
        let rs2 = rows_of_text(n1);
        assert(rs2 == ls.map_values(g));
        let ls2 = rs2.map_values(f);
        assert forall|i: int| 0 <= i < ls.len() implies #[trigger] ls2[i] == ls[i] by {
            assert(ls2[i] == row_line(row_of_line(ls[i])));
            law_row_round_trip(src[i]);
        }
        assert(ls2 =~= ls);
    }
}

} // verus!
