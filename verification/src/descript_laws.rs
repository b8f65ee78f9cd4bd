//! What reading a descript text gives after `set_descript_value` wrote it:
//! the key holds the new value and every other key is unchanged; after
//! clearing, the key is gone.
use vstd::prelude::*;
use crate::color::Rgb;
use crate::descript::{active_scan, alias_group_of, alias_groups, alias_target, aliased_get, k_number_x, k_number_xr, k_number_y, k_number_yb, set_aliased_text, color_read, comment_mark, commented_match, commented_scan, last_at, map_u8, none_word, set_color_text, ws_run, descript_map, entries_map, line_entry, line_len, set_value_text};
use crate::num::{all_digits, int_numeral, lemma_nat_digits, lemma_parse_numeral, nat_digits};
use crate::layout::split_by;
use crate::text::{all_ascii, ascii_lower, find_char, is_ws, join, lemma_find_char, split_lines, starts_with, strip_cr, trim, trim_end, trim_start};

verus! {

/// The lines `str::lines` gives for a text cut into pieces at its line
/// feeds: a carriage return before each line feed dropped, and no line
/// after a final line feed.
pub open spec fn lines_of_pieces(ps: Seq<Seq<char>>) -> Seq<Seq<char>>
    decreases ps.len(),
{
    if ps.len() == 0 {
        Seq::empty()
    } else if ps.len() == 1 {
        if ps[0].len() == 0 {
            Seq::empty()
        } else {
            seq![ps[0]]
        }
    } else {
        seq![strip_cr(ps[0])] + lines_of_pieces(ps.skip(1))
    }
}

pub(crate) proof fn lemma_split_by_len(s: Seq<char>, c: char)
    ensures
        split_by(s, c).len() >= 1,
{
    lemma_find_char(s, c);
}

/// `str::lines` is the pieces between line feeds, as `lines_of_pieces` reads them.
pub(crate) proof fn lemma_split_lines_pieces(t: Seq<char>)
    ensures
        split_lines(t) == lines_of_pieces(split_by(t, '\n')),
    decreases t.len(),
{
    lemma_find_char(t, '\n');
    match find_char(t, '\n') {
        None => {},
        Some(i) => {
            lemma_split_lines_pieces(t.skip(i + 1));
            lemma_split_by_len(t.skip(i + 1), '\n');
            let ps = split_by(t, '\n');
            assert(ps.skip(1) =~= split_by(t.skip(i + 1), '\n'));
            assert(t.subrange(0, i) =~= t.take(i));
            assert(t.subrange(i + 1, t.len() as int) =~= t.skip(i + 1));
        },
    }
}

/// Joining with a separator, taken from the front.
pub(crate) proof fn lemma_join_front(a: Seq<char>, ps: Seq<Seq<char>>, sep: Seq<char>)
    requires
        ps.len() >= 1,
    ensures
        join(seq![a] + ps, sep) == a + sep + join(ps, sep),
    decreases ps.len(),
{
    let all = seq![a] + ps;
    assert(all.last() == ps.last());
    if ps.len() == 1 {
        assert(all.drop_last() =~= seq![a]);
        assert(join(seq![a], sep) == a);
        assert(join(ps, sep) == ps[0]);
        assert(join(all, sep) == join(all.drop_last(), sep) + sep + all.last());
    } else {
        assert(all.drop_last() =~= seq![a] + ps.drop_last());
        lemma_join_front(a, ps.drop_last(), sep);
        assert(join(all, sep) == join(all.drop_last(), sep) + sep + all.last());
        assert(join(ps, sep) == join(ps.drop_last(), sep) + sep + ps.last());
        assert(join(all, sep) =~= a + sep + join(ps, sep));
    }
}

/// The first `c` of `a + c + b`, for `a` without one.
proof fn lemma_find_sep_after(a: Seq<char>, c: char, b: Seq<char>)
    requires
        !a.contains(c),
    ensures
        find_char(a + seq![c] + b, c) == Some(a.len() as int),
    decreases a.len(),
{
    let s = a + seq![c] + b;
    if a.len() == 0 {
    } else {
        assert(s[0] == a[0]);
        assert(s.drop_first() =~= a.drop_first() + seq![c] + b);
        assert(!a.drop_first().contains(c)) by {
            if a.drop_first().contains(c) {
                let j = choose|j: int| 0 <= j < a.drop_first().len() && a.drop_first()[j] == c;
                assert(a[j + 1] == c);
            }
        }
        lemma_find_sep_after(a.drop_first(), c, b);
    }
}

/// The first `c` of `a + c + b`, for `a` without one (see `lemma_find_sep_after`).
pub(crate) proof fn lemma_find_sep_after_pub(a: Seq<char>, c: char, b: Seq<char>)
    requires
        !a.contains(c),
    ensures
        find_char(a + seq![c] + b, c) == Some(a.len() as int),
{
    lemma_find_sep_after(a, c, b);
}

/// A text without `c` is one piece.
proof fn lemma_no_sep_piece(a: Seq<char>, c: char)
    requires
        !a.contains(c),
    ensures
        split_by(a, c) == seq![a],
{
    lemma_find_char(a, c);
    if find_char(a, c) is Some {
        let i = find_char(a, c)->0;
        assert(a[i] == c);
    }
}

/// Cutting pieces joined with `c` at `c` gives the pieces back.
pub(crate) proof fn lemma_pieces_of_join_by(ps: Seq<Seq<char>>, c: char)
    requires
        ps.len() >= 1,
        forall|i: int| 0 <= i < ps.len() ==> !(#[trigger] ps[i]).contains(c),
    ensures
        split_by(join(ps, seq![c]), c) == ps,
    decreases ps.len(),
{
    if ps.len() == 1 {
        lemma_no_sep_piece(ps[0], c);
    } else {
        let rest = ps.skip(1);
        assert(ps =~= seq![ps[0]] + rest);
        lemma_join_front(ps[0], rest, seq![c]);
        lemma_pieces_of_join_by(rest, c);
        let a = ps[0];
        let b = join(rest, seq![c]);
        lemma_find_sep_after(a, c, b);
        let s = a + seq![c] + b;
        assert(join(ps, seq![c]) == s);
        assert(s.take(a.len() as int) =~= a);
        assert(s.skip(a.len() + 1int) =~= b);
    }
}

/// Cutting joined pieces at line feeds gives the pieces back.
proof fn lemma_pieces_of_join(ps: Seq<Seq<char>>)
    requires
        ps.len() >= 1,
        forall|i: int| 0 <= i < ps.len() ==> !(#[trigger] ps[i]).contains('\n'),
    ensures
        split_by(join(ps, "\n"@), '\n') == ps,
{
    reveal_strlit("\n");
    assert("\n"@ =~= seq!['\n']);
    lemma_pieces_of_join_by(ps, '\n');
}

/// `rest` is empty or starts a new line.
pub open spec fn at_line_end(rest: Seq<char>) -> bool {
    rest.len() == 0 || rest[0] == '\n'
}

/// What the active-line pass of `set_descript_value` makes of one piece of
/// text between line feeds: a piece starting with `key,` becomes `key,value`,
/// or with `blank` is commented out; any other piece stays.
pub open spec fn active_piece(p: Seq<char>, key: Seq<char>, blank: bool, value: Seq<char>) -> Seq<char> {
    if starts_with(p, key.push(',')) {
        if blank {
            comment_mark() + p
        } else {
            key.push(',') + value
        }
    } else {
        p
    }
}

/// Some piece starts with `key,`.
pub open spec fn has_active(ps: Seq<Seq<char>>, key: Seq<char>) -> bool {
    exists|i: int| 0 <= i < ps.len() && starts_with(#[trigger] ps[i], key.push(','))
}

/// The length of the rest of a line that has no line feed, followed by a line end.
proof fn lemma_line_len(x: Seq<char>, rest: Seq<char>)
    requires
        !x.contains('\n'),
        at_line_end(rest),
    ensures
        line_len(x + rest) == x.len(),
{
    if rest.len() == 0 {
        lemma_find_char(x, '\n');
        assert(x + rest =~= x);
        if find_char(x, '\n') is Some {
            let i = find_char(x, '\n')->0;
            assert(x[i] == '\n');
        }
    } else {
        assert(rest =~= seq!['\n'] + rest.drop_first());
        assert(x + rest =~= x + seq!['\n'] + rest.drop_first());
        lemma_find_sep_after(x, '\n', rest.drop_first());
    }
}

/// Inside a line, the active pass copies characters up to the line end.
proof fn lemma_active_inside(p: Seq<char>, rest: Seq<char>, key: Seq<char>, blank: bool, value: Seq<char>)
    requires
        !p.contains('\n'),
    ensures
        active_scan(p + rest, key, blank, value, false) == (
            p + active_scan(rest, key, blank, value, false).0,
            active_scan(rest, key, blank, value, false).1,
        ),
    decreases p.len(),
{
    if p.len() == 0 {
        assert(p + rest =~= rest);
        assert(p + active_scan(rest, key, blank, value, false).0 =~= active_scan(rest, key, blank, value, false).0);
    } else {
        let t = p + rest;
        assert(t[0] == p[0]);
        assert(t.drop_first() =~= p.drop_first() + rest);
        assert(!p.drop_first().contains('\n')) by {
            if p.drop_first().contains('\n') {
                let j = choose|j: int| 0 <= j < p.drop_first().len() && p.drop_first()[j] == '\n';
                assert(p[j + 1] == '\n');
            }
        }
        assert(p[0] != '\n');
        lemma_active_inside(p.drop_first(), rest, key, blank, value);
        assert(seq![p[0]] + (p.drop_first() + active_scan(rest, key, blank, value, false).0) =~= p
            + active_scan(rest, key, blank, value, false).0);
    }
}

/// At the start of a line, the active pass turns the line into its
/// `active_piece` and goes on after it.
proof fn lemma_active_line(p: Seq<char>, rest: Seq<char>, key: Seq<char>, blank: bool, value: Seq<char>)
    requires
        !p.contains('\n'),
        !key.contains('\n'),
        at_line_end(rest),
    ensures
        active_scan(p + rest, key, blank, value, true) == (
            active_piece(p, key, blank, value) + active_scan(rest, key, blank, value, false).0,
            starts_with(p, key.push(',')) || active_scan(rest, key, blank, value, false).1,
        ),
{
    let t = p + rest;
    let kc = key.push(',');
    assert(!kc.contains('\n')) by {
        if kc.contains('\n') {
            let j = choose|j: int| 0 <= j < kc.len() && kc[j] == '\n';
            if j < key.len() {
                assert(key[j] == '\n');
            }
        }
    }
    if starts_with(p, kc) {
        assert(t.subrange(0, kc.len() as int) =~= p.subrange(0, kc.len() as int));
    }
    if starts_with(t, kc) && !starts_with(p, kc) {
        if p.len() >= kc.len() {
            assert(t.subrange(0, kc.len() as int) =~= p.subrange(0, kc.len() as int));
        } else {
            assert(t[p.len() as int] == rest[0]);
            assert(t.subrange(0, kc.len() as int)[p.len() as int] == kc[p.len() as int]);
            assert(false);
        }
    }
    if starts_with(p, kc) {
        let rest2 = t.skip(key.len() + 1int);
        let x = p.skip(kc.len() as int);
        assert(rest2 =~= x + rest);
        assert(!x.contains('\n')) by {
            if x.contains('\n') {
                let j = choose|j: int| 0 <= j < x.len() && x[j] == '\n';
                assert(p[j + kc.len()] == '\n');
            }
        }
        lemma_line_len(x, rest);
        assert(rest2.skip(x.len() as int) =~= rest);
        assert(rest2.take(x.len() as int) =~= x);
        if blank {
            assert(comment_mark() + key.push(',') + x =~= comment_mark() + p);
        }
    } else {
        if p.len() == 0 {
            assert(t =~= rest);
            if rest.len() > 0 {
                assert(kc[0] != '\n');
                assert(!starts_with(rest, kc)) by {
                    if starts_with(rest, kc) {
                        assert(rest.subrange(0, kc.len() as int)[0] == rest[0]);
                    }
                }
            }
            assert(p + active_scan(rest, key, blank, value, false).0 =~= active_scan(rest, key, blank, value, false).0);
        } else {
            assert(t[0] == p[0]);
            assert(p[0] != '\n');
            assert(t.drop_first() =~= p.drop_first() + rest);
            assert(!p.drop_first().contains('\n')) by {
                if p.drop_first().contains('\n') {
                    let j = choose|j: int| 0 <= j < p.drop_first().len() && p.drop_first()[j] == '\n';
                    assert(p[j + 1] == '\n');
                }
            }
            lemma_active_inside(p.drop_first(), rest, key, blank, value);
            assert(seq![p[0]] + (p.drop_first() + active_scan(rest, key, blank, value, false).0) =~= p
                + active_scan(rest, key, blank, value, false).0);
        }
    }
}

/// The active pass over a whole text: each piece between line feeds turned
/// into its `active_piece`; and whether any piece starts with `key,`.
proof fn lemma_active_scan_pieces(t: Seq<char>, key: Seq<char>, blank: bool, value: Seq<char>)
    requires
        !key.contains('\n'),
    ensures
        active_scan(t, key, blank, value, true) == (
            join(split_by(t, '\n').map_values(|p: Seq<char>| active_piece(p, key, blank, value)), "\n"@),
            has_active(split_by(t, '\n'), key),
        ),
    decreases t.len(),
{
    reveal_strlit("\n");
    assert("\n"@ =~= seq!['\n']);
    lemma_find_char(t, '\n');
    let ps = split_by(t, '\n');
    let f = |p: Seq<char>| active_piece(p, key, blank, value);
    match find_char(t, '\n') {
        None => {
            assert(!t.contains('\n')) by {
                if t.contains('\n') {
                    let j = choose|j: int| 0 <= j < t.len() && t[j] == '\n';
                }
            }
            lemma_active_line(t, Seq::empty(), key, blank, value);
            assert(t + Seq::<char>::empty() =~= t);
            assert(ps == seq![t]);
            assert(ps.map_values(f) =~= seq![f(t)]);
            assert(active_piece(t, key, blank, value) + Seq::<char>::empty() =~= active_piece(t, key, blank, value));
            if starts_with(t, key.push(',')) {
                assert(starts_with(ps[0], key.push(',')));
            }
        },
        Some(i) => {
            let p0 = t.take(i);
            let t2 = t.skip(i + 1);
            assert(!p0.contains('\n')) by {
                if p0.contains('\n') {
                    let j = choose|j: int| 0 <= j < p0.len() && p0[j] == '\n';
                    assert(t[j] == '\n');
                }
            }
            let rest = seq!['\n'] + t2;
            assert(t =~= p0 + rest);
            lemma_active_line(p0, rest, key, blank, value);
            assert(rest.drop_first() =~= t2);
            assert(active_scan(rest, key, blank, value, false) == (
                seq!['\n'] + active_scan(t2, key, blank, value, true).0,
                active_scan(t2, key, blank, value, true).1,
            ));
            lemma_active_scan_pieces(t2, key, blank, value);
            let ps2 = split_by(t2, '\n');
            lemma_split_by_len(t2, '\n');
            assert(ps =~= seq![p0] + ps2);
            assert(ps.map_values(f) =~= seq![f(p0)] + ps2.map_values(f));
            lemma_join_front(f(p0), ps2.map_values(f), "\n"@);
            assert(active_piece(p0, key, blank, value) + (seq!['\n'] + join(ps2.map_values(f), "\n"@)) =~= f(p0)
                + "\n"@ + join(ps2.map_values(f), "\n"@));
            if has_active(ps, key) {
                let j = choose|j: int| 0 <= j < ps.len() && starts_with(#[trigger] ps[j], key.push(','));
                if j > 0 {
                    assert(ps2[j - 1] == ps[j]);
                }
            }
            if has_active(ps2, key) {
                let j = choose|j: int| 0 <= j < ps2.len() && starts_with(#[trigger] ps2[j], key.push(','));
                assert(ps[j + 1] == ps2[j]);
            }
            if starts_with(p0, key.push(',')) {
                assert(ps[0] == p0);
            }
        },
    }
}

/// `trim_end` keeps a prefix of the text: everything up to its last
/// non-whitespace character.
pub(crate) proof fn lemma_trim_end_prefix(s: Seq<char>, n: int)
    requires
        0 < n <= s.len(),
        !is_ws(s[n - 1]),
    ensures
        trim_end(s).len() >= n,
        trim_end(s) == s.take(trim_end(s).len() as int),
    decreases s.len(),
{
    if s.len() > n {
        if is_ws(s.last()) {
            assert(s.drop_last()[n - 1] == s[n - 1]);
            lemma_trim_end_prefix(s.drop_last(), n);
            lemma_trim_end_len(s.drop_last());
            assert(trim_end(s) == trim_end(s.drop_last()));
            assert(s.drop_last().take(trim_end(s).len() as int) =~= s.take(trim_end(s).len() as int));
        } else {
            assert(s.take(s.len() as int) =~= s);
        }
    } else {
        assert(s.last() == s[n - 1]);
        assert(s.take(s.len() as int) =~= s);
    }
}

/// `trim_end` only shortens.
pub(crate) proof fn lemma_trim_end_len(s: Seq<char>)
    ensures
        trim_end(s).len() <= s.len(),
    decreases s.len(),
{
    if s.len() > 0 && is_ws(s.last()) {
        lemma_trim_end_len(s.drop_last());
    }
}

/// `trim_start` only shortens, and leaves a text starting with a
/// non-whitespace character as it is.
pub(crate) proof fn lemma_trim_start(s: Seq<char>)
    ensures
        trim_start(s).len() <= s.len(),
        s.len() > 0 && !is_ws(s[0]) ==> trim_start(s) == s,
        trim_start(s).len() == s.len() ==> trim_start(s) == s,
    decreases s.len(),
{
    if s.len() > 0 && is_ws(s[0]) {
        lemma_trim_start(s.drop_first());
    }
}

/// A text that trimming leaves alone starts and ends with non-whitespace.
pub(crate) proof fn lemma_trimmed(v: Seq<char>)
    requires
        trim(v) == v,
        v.len() > 0,
    ensures
        !is_ws(v[0]),
        !is_ws(v.last()),
        trim_start(v) == v,
{
    lemma_trim_start(v);
    lemma_trim_end_len(trim_start(v));
    if is_ws(v[0]) {
        lemma_trim_start(v.drop_first());
        assert(trim_start(v).len() < v.len());
    }
    assert(trim_start(v) == v);
    if is_ws(v.last()) {
        lemma_trim_end_len(v.drop_last());
        assert(trim_end(v).len() < v.len());
    }
}

/// `trim` keeps a prefix that starts and ends with non-whitespace.
pub(crate) proof fn lemma_trim_keeps_prefix(s: Seq<char>, q: Seq<char>)
    requires
        q.len() > 0,
        starts_with(s, q),
        !is_ws(q[0]),
        !is_ws(q.last()),
    ensures
        starts_with(trim(s), q),
{
    lemma_trim_start(s);
    assert(s[0] == q[0]);
    assert(trim_start(s) == s);
    assert(s[q.len() - 1] == q.last());
    lemma_trim_end_prefix(s, q.len() as int);
    lemma_trim_end_len(s);
    assert(trim(s) == trim_end(s));
    let L = trim_end(s).len() as int;
    assert(trim(s) == s.take(L));
    assert forall|j: int| 0 <= j < q.len() implies trim(s).subrange(0, q.len() as int)[j] == q[j] by {
        assert(s.take(L)[j] == s[j]);
        assert(s.subrange(0, q.len() as int)[j] == s[j]);
    }
    assert(trim(s).subrange(0, q.len() as int) =~= q);
}

/// A key fit to be set by text: no comma or line feed, no whitespace at
/// either end, and not starting a comment.
pub open spec fn clean_key(key: Seq<char>) -> bool {
    &&& !key.contains(',')
    &&& !key.contains('\n')
    &&& trim(key) == key
    &&& !starts_with(key, comment_mark())
}

/// A value fit to be set by text: no line feed, no whitespace at either end.
pub open spec fn clean_value(value: Seq<char>) -> bool {
    &&& !value.contains('\n')
    &&& trim(value) == value
}

/// Every line that defines `key` is a plain `key,…` line: none spells the
/// key with whitespace around it.
pub open spec fn regular_for(ls: Seq<Seq<char>>, key: Seq<char>) -> bool {
    forall|i: int| 0 <= i < ls.len() && #[trigger] defines_key(ls[i], key) ==> starts_with(ls[i], key.push(','))
}

/// The line defines `key`.
pub open spec fn defines_key(l: Seq<char>, key: Seq<char>) -> bool {
    match line_entry(l) {
        Some(e) => e.0 == key,
        None => false,
    }
}

/// A line starting with `key,` defines `key`, with what follows the comma,
/// leading whitespace dropped, as its value.
proof fn lemma_entry_of_key_line(l: Seq<char>, key: Seq<char>)
    requires
        clean_key(key),
        starts_with(l, key.push(',')),
    ensures
        defines_key(l, key),
        line_entry(l) == Some((key, trim_start(l.subrange(key.len() + 1int, l.len() as int)))),
{
    let kc = key.push(',');
    assert(kc.last() == ',');
    assert(!is_ws(','));
    if key.len() > 0 {
        lemma_trimmed(key);
        assert(kc[0] == key[0]);
    }
    lemma_trim_keeps_prefix(l, kc);
    let t = trim(l);
    assert(t.len() > 0);
    assert(!starts_with(t, comment_mark())) by {
        if starts_with(t, comment_mark()) {
            if key.len() >= 2 {
                assert(key.subrange(0, 2) =~= t.subrange(0, 2));
            } else {
                assert(t[key.len() as int] == ',');
                assert(t.subrange(0, 2)[key.len() as int] == '/');
            }
        }
    }
    lemma_find_char(l, ',');
    assert forall|j: int| 0 <= j < key.len() implies l[j] != ',' by {
        assert(l.subrange(0, kc.len() as int)[j] == kc[j]);
        assert(key[j] != ',');
    }
    assert(l.subrange(0, kc.len() as int)[key.len() as int] == kc[key.len() as int]);
    assert(l[key.len() as int] == ',');
    assert(find_char(l, ',') == Some(key.len() as int)) by {
        let f = find_char(l, ',');
        if f is Some {
            let i = f->0;
            assert(i <= key.len());
        }
    }
    assert(l.subrange(0, key.len() as int) =~= key);
}

/// The line `key,value` defines `key` as `value`.
proof fn lemma_entry_of_set_line(key: Seq<char>, value: Seq<char>)
    requires
        clean_key(key),
        clean_value(value),
    ensures
        line_entry(key.push(',') + value) == Some((key, value)),
{
    let l = key.push(',') + value;
    let kc = key.push(',');
    assert(starts_with(l, kc)) by {
        assert(l.subrange(0, kc.len() as int) =~= kc);
    }
    lemma_entry_of_key_line(l, key);
    assert(l.subrange(key.len() + 1int, l.len() as int) =~= value);
    if value.len() > 0 {
        lemma_trimmed(value);
    }
}

/// A line starting with `//` defines nothing.
proof fn lemma_entry_of_comment(l: Seq<char>)
    ensures
        line_entry(comment_mark() + l) is None,
{
    let s = comment_mark() + l;
    assert(starts_with(s, comment_mark())) by {
        assert(s.subrange(0, 2) =~= comment_mark());
    }
    lemma_trim_keeps_prefix(s, comment_mark());
}

/// No piece between two `c`s holds a `c`.
pub(crate) proof fn lemma_pieces_no_sep(t: Seq<char>, c: char)
    ensures
        forall|i: int| 0 <= i < split_by(t, c).len() ==> !(#[trigger] split_by(t, c)[i]).contains(c),
    decreases t.len(),
{
    lemma_find_char(t, c);
    let ps = split_by(t, c);
    match find_char(t, c) {
        None => {
            assert(!t.contains(c)) by {
                if t.contains(c) {
                    let j = choose|j: int| 0 <= j < t.len() && t[j] == c;
                }
            }
        },
        Some(i) => {
            lemma_pieces_no_sep(t.skip(i + 1), c);
            let p0 = t.take(i);
            assert(!p0.contains(c)) by {
                if p0.contains(c) {
                    let j = choose|j: int| 0 <= j < p0.len() && p0[j] == c;
                    assert(t[j] == c);
                }
            }
            assert forall|k: int| 0 <= k < ps.len() implies !(#[trigger] ps[k]).contains(c) by {
                if k > 0 {
                    assert(ps[k] == split_by(t.skip(i + 1), c)[k - 1]);
                }
            }
        },
    }
}

/// No piece between line feeds holds a line feed.
proof fn lemma_pieces_no_lf(t: Seq<char>)
    ensures
        forall|i: int| 0 <= i < split_by(t, '\n').len() ==> !(#[trigger] split_by(t, '\n')[i]).contains('\n'),
{
    lemma_pieces_no_sep(t, '\n');
}

/// Joining the pieces with line feeds gives the text back.
proof fn lemma_join_pieces(t: Seq<char>)
    ensures
        join(split_by(t, '\n'), "\n"@) == t,
    decreases t.len(),
{
    reveal_strlit("\n");
    assert("\n"@ =~= seq!['\n']);
    lemma_find_char(t, '\n');
    match find_char(t, '\n') {
        None => {},
        Some(i) => {
            let rest = split_by(t.skip(i + 1), '\n');
            lemma_split_by_len(t.skip(i + 1), '\n');
            lemma_join_pieces(t.skip(i + 1));
            lemma_join_front(t.take(i), rest, "\n"@);
            assert(t.take(i) + "\n"@ + t.skip(i + 1) =~= t);
        },
    }
}

/// Trimming ignores one more whitespace character at the end.
proof fn lemma_trim_push_ws(x: Seq<char>, c: char)
    requires
        is_ws(c),
    ensures
        trim(x.push(c)) == trim(x),
    decreases x.len(),
{
    if x.len() == 0 {
        assert(x.push(c).drop_first() =~= Seq::<char>::empty());
        assert(trim_start(x.push(c)) == trim_start(Seq::<char>::empty()));
        assert(trim_start(x) == x);
    } else if is_ws(x[0]) {
        assert(x.push(c).drop_first() =~= x.drop_first().push(c));
        lemma_trim_push_ws(x.drop_first(), c);
        assert(trim_start(x.push(c)) == trim_start(x.drop_first().push(c)));
        assert(trim_start(x) == trim_start(x.drop_first()));
    } else {
        assert(x.push(c)[0] == x[0]);
        assert(trim_start(x.push(c)) == x.push(c));
        assert(x.push(c).drop_last() =~= x);
        assert(trim_end(x.push(c)) == trim_end(x));
    }
}

/// A character other than `ch` pushed at the end does not move the first `ch`.
proof fn lemma_find_char_push(x: Seq<char>, c: char, ch: char)
    requires
        c != ch,
    ensures
        find_char(x.push(c), ch) == find_char(x, ch),
    decreases x.len(),
{
    if x.len() == 0 {
        assert(x.push(c).drop_first() =~= Seq::<char>::empty());
    } else {
        assert(x.push(c)[0] == x[0]);
        assert(x.push(c).drop_first() =~= x.drop_first().push(c));
        lemma_find_char_push(x.drop_first(), c, ch);
    }
}

/// A prefix that does not end in `c` starts `s` exactly when it starts `s` followed by `c`.
proof fn lemma_starts_push(s: Seq<char>, c: char, q: Seq<char>)
    requires
        q.len() > 0,
        q.last() != c,
    ensures
        starts_with(s.push(c), q) == starts_with(s, q),
{
    if q.len() <= s.len() {
        assert(s.push(c).subrange(0, q.len() as int) =~= s.subrange(0, q.len() as int));
    } else if q.len() == s.len() + 1 && starts_with(s.push(c), q) {
        assert(s.push(c).subrange(0, q.len() as int) =~= s.push(c));
        assert(q.last() == s.push(c).last());
    }
}

/// Whitespace pushed at the end of a line leaves the key it defines as it was.
proof fn lemma_key_push_ws(x: Seq<char>, c: char, key: Seq<char>)
    requires
        is_ws(c),
    ensures
        defines_key(x.push(c), key) == defines_key(x, key),
{
    let y = x.push(c);
    assert(!is_ws(','));
    lemma_trim_push_ws(x, c);
    lemma_find_char_push(x, c, ',');
    lemma_find_char(x, ',');
    match find_char(x, ',') {
        Some(p) => {
            assert(y.subrange(0, p) =~= x.subrange(0, p));
        },
        None => {},
    }
}

/// A `\r` at the end of a line leaves the key it defines as it was.
proof fn lemma_key_strip_cr(p: Seq<char>, key: Seq<char>)
    ensures
        defines_key(strip_cr(p), key) == defines_key(p, key),
{
    if p.len() > 0 && p.last() == '\r' {
        assert(p.drop_last().push('\r') =~= p);
        lemma_key_push_ws(p.drop_last(), '\r', key);
    }
}

/// `key,` starts a line exactly when it starts the line without its final `\r`.
proof fn lemma_starts_strip_cr(p: Seq<char>, key: Seq<char>)
    ensures
        starts_with(strip_cr(p), key.push(',')) == starts_with(p, key.push(',')),
{
    if p.len() > 0 && p.last() == '\r' {
        assert(p.drop_last().push('\r') =~= p);
        lemma_starts_push(p.drop_last(), '\r', key.push(','));
    }
}

/// A leading whitespace character changes no line's entry.
proof fn lemma_entry_drop_ws(l: Seq<char>)
    requires
        l.len() > 0,
        is_ws(l[0]),
    ensures
        line_entry(l) == line_entry(l.drop_first()),
{
    let l2 = l.drop_first();
    assert(!is_ws(','));
    assert(l[0] != ',');
    assert(trim_start(l) == trim_start(l2));
    lemma_find_char(l2, ',');
    match find_char(l2, ',') {
        None => {},
        Some(p) => {
            assert(find_char(l, ',') == Some(p + 1));
            let k1 = l.subrange(0, p + 1);
            assert(k1.drop_first() =~= l2.subrange(0, p));
            assert(k1[0] == l[0]);
            assert(trim_start(k1) == trim_start(l2.subrange(0, p)));
            assert(l.subrange(p + 2, l.len() as int) =~= l2.subrange(p + 1, l2.len() as int));
        },
    }
}

/// An empty line defines nothing.
proof fn lemma_entry_empty()
    ensures
        line_entry(Seq::empty()) is None,
{
    assert(trim_start(Seq::<char>::empty()) =~= Seq::<char>::empty());
}

/// The lines `lines_of_pieces` makes: one per piece, `\r`-stripped but for
/// the last, which is left out when empty.
pub(crate) proof fn lemma_lines_shape(ps: Seq<Seq<char>>)
    requires
        ps.len() >= 1,
    ensures
        lines_of_pieces(ps).len() == (if ps.last().len() == 0 { ps.len() - 1 } else { ps.len() as int }),
        forall|i: int| 0 <= i < lines_of_pieces(ps).len() ==> #[trigger] lines_of_pieces(ps)[i] == (if i < ps.len() - 1 {
            strip_cr(ps[i])
        } else {
            ps[i]
        }),
    decreases ps.len(),
{
    if ps.len() > 1 {
        let rest = ps.skip(1);
        lemma_lines_shape(rest);
        assert(rest.last() == ps.last());
        let ls = lines_of_pieces(ps);
        assert forall|i: int| 0 <= i < ls.len() implies #[trigger] ls[i] == (if i < ps.len() - 1 {
            strip_cr(ps[i])
        } else {
            ps[i]
        }) by {
            if i > 0 {
                assert(ls[i] == lines_of_pieces(rest)[i - 1]);
                assert(rest[i - 1] == ps[i]);
            }
        }
    }
}

/// The pieces between line feeds as lines: a `\r` before each line feed dropped.
spec fn cr_pieces(ps: Seq<Seq<char>>) -> Seq<Seq<char>> {
    Seq::new(ps.len(), |i: int| if i < ps.len() - 1 { strip_cr(ps[i]) } else { ps[i] })
}

/// The lines of a text are its pieces as `cr_pieces` reads them, but for an
/// empty last piece, which is no line.
proof fn lemma_cr_lines(t: Seq<char>)
    ensures
        cr_pieces(split_by(t, '\n')).len() >= 1,
        split_lines(t) == cr_pieces(split_by(t, '\n')) || (split_lines(t) == cr_pieces(split_by(t, '\n')).drop_last()
            && cr_pieces(split_by(t, '\n')).last().len() == 0),
{
    let ps = split_by(t, '\n');
    lemma_split_by_len(t, '\n');
    lemma_split_lines_pieces(t);
    lemma_lines_shape(ps);
    let ls = lines_of_pieces(ps);
    let cs = cr_pieces(ps);
    if ps.last().len() == 0 {
        assert(ls =~= cs.drop_last());
    } else {
        assert(ls =~= cs);
    }
}

/// The map of a text, read piece by piece between line feeds.
proof fn lemma_descript_pieces(t: Seq<char>)
    ensures
        descript_map(t) == entries_map(cr_pieces(split_by(t, '\n'))),
{
    lemma_cr_lines(t);
    lemma_entry_empty();
}

/// Regularity of the lines carries over to the pieces as `cr_pieces` reads them.
proof fn lemma_regular_cr(t: Seq<char>, key: Seq<char>)
    requires
        regular_for(split_lines(t), key),
    ensures
        regular_for(cr_pieces(split_by(t, '\n')), key),
{
    lemma_cr_lines(t);
    lemma_entry_empty();
    let cs = cr_pieces(split_by(t, '\n'));
    let ls = split_lines(t);
    assert forall|i: int| 0 <= i < cs.len() && #[trigger] defines_key(cs[i], key) implies starts_with(cs[i], key.push(',')) by {
        if i < ls.len() {
            assert(ls[i] == cs[i]);
        }
    }
}

/// Regularity holds of every prefix.
proof fn lemma_regular_drop_last(ps: Seq<Seq<char>>, key: Seq<char>)
    requires
        ps.len() > 0,
        regular_for(ps, key),
    ensures
        regular_for(ps.drop_last(), key),
{
    assert forall|i: int| 0 <= i < ps.drop_last().len() && #[trigger] defines_key(ps.drop_last()[i], key) implies starts_with(
        ps.drop_last()[i],
        key.push(','),
    ) by {
        assert(ps.drop_last()[i] == ps[i]);
        assert(defines_key(ps[i], key));
    }
}

/// A key is in the map exactly when some line defines it.
proof fn lemma_entries_contains(ls: Seq<Seq<char>>, key: Seq<char>)
    ensures
        entries_map(ls).contains_key(key) <==> exists|i: int| 0 <= i < ls.len() && #[trigger] defines_key(ls[i], key),
    decreases ls.len(),
{
    if ls.len() > 0 {
        let init = ls.drop_last();
        lemma_entries_contains(init, key);
        if exists|i: int| 0 <= i < init.len() && #[trigger] defines_key(init[i], key) {
            let i = choose|i: int| 0 <= i < init.len() && #[trigger] defines_key(init[i], key);
            assert(defines_key(ls[i], key));
        }
        if exists|i: int| 0 <= i < ls.len() && #[trigger] defines_key(ls[i], key) {
            let i = choose|i: int| 0 <= i < ls.len() && #[trigger] defines_key(ls[i], key);
            if i < ls.len() - 1 {
                assert(defines_key(init[i], key));
            }
        }
        if defines_key(ls.last(), key) {
            assert(defines_key(ls[ls.len() - 1], key));
        }
    }
}

/// Under regularity, a key is set exactly when some piece starts with `key,`.
proof fn lemma_active_iff_set(ps: Seq<Seq<char>>, key: Seq<char>)
    requires
        clean_key(key),
        regular_for(ps, key),
    ensures
        has_active(ps, key) <==> entries_map(ps).contains_key(key),
{
    lemma_entries_contains(ps, key);
    if has_active(ps, key) {
        let i = choose|i: int| 0 <= i < ps.len() && starts_with(#[trigger] ps[i], key.push(','));
        lemma_entry_of_key_line(ps[i], key);
    }
    if entries_map(ps).contains_key(key) {
        let i = choose|i: int| 0 <= i < ps.len() && #[trigger] defines_key(ps[i], key);
        assert(starts_with(ps[i], key.push(',')));
    }
}

/// Commenting out every `key,` piece removes the key and keeps the rest.
proof fn lemma_blank_pieces(ps: Seq<Seq<char>>, key: Seq<char>, value: Seq<char>)
    requires
        clean_key(key),
        regular_for(ps, key),
    ensures
        entries_map(ps.map_values(|p: Seq<char>| active_piece(p, key, true, value))) == entries_map(ps).remove(key),
    decreases ps.len(),
{
    let f = |p: Seq<char>| active_piece(p, key, true, value);
    if ps.len() == 0 {
        assert(ps.map_values(f).len() == 0);
        assert(entries_map(ps).remove(key) =~= Map::empty());
    } else {
        let init = ps.drop_last();
        let l = ps.last();
        lemma_regular_drop_last(ps, key);
        lemma_blank_pieces(init, key, value);
        assert(ps.map_values(f).drop_last() =~= init.map_values(f));
        assert(ps.map_values(f).last() == f(l));
        let m = entries_map(init);
        if starts_with(l, key.push(',')) {
            lemma_entry_of_key_line(l, key);
            lemma_entry_of_comment(l);
            let kv = line_entry(l)->0;
            assert(m.insert(key, kv.1).remove(key) =~= m.remove(key));
        } else {
            assert(defines_key(ps[ps.len() - 1], key) ==> starts_with(ps[ps.len() - 1], key.push(',')));
            match line_entry(l) {
                Some(kv) => {
                    assert(kv.0 != key);
                    assert(m.remove(key).insert(kv.0, kv.1) =~= m.insert(kv.0, kv.1).remove(key));
                },
                None => {},
            }
        }
    }
}

/// Setting every `key,` piece to `key,value` sets the key, when one was
/// there, and keeps the rest.
proof fn lemma_set_pieces(ps: Seq<Seq<char>>, key: Seq<char>, value: Seq<char>)
    requires
        clean_key(key),
        clean_value(value),
        regular_for(ps, key),
    ensures
        entries_map(ps.map_values(|p: Seq<char>| active_piece(p, key, false, value))) == (if has_active(ps, key) {
            entries_map(ps).insert(key, value)
        } else {
            entries_map(ps)
        }),
    decreases ps.len(),
{
    let f = |p: Seq<char>| active_piece(p, key, false, value);
    if ps.len() == 0 {
        assert(ps.map_values(f).len() == 0);
    } else {
        let init = ps.drop_last();
        let l = ps.last();
        lemma_regular_drop_last(ps, key);
        lemma_set_pieces(init, key, value);
        assert(ps.map_values(f).drop_last() =~= init.map_values(f));
        assert(ps.map_values(f).last() == f(l));
        let m = entries_map(init);
        let r = entries_map(init.map_values(f));
        if has_active(init, key) {
            let i = choose|i: int| 0 <= i < init.len() && starts_with(#[trigger] init[i], key.push(','));
            assert(ps[i] == init[i]);
        }
        if has_active(ps, key) && !starts_with(l, key.push(',')) {
            let i = choose|i: int| 0 <= i < ps.len() && starts_with(#[trigger] ps[i], key.push(','));
            assert(i < ps.len() - 1);
            assert(init[i] == ps[i]);
        }
        if starts_with(l, key.push(',')) {
            assert(starts_with(ps[ps.len() - 1], key.push(',')));
            lemma_entry_of_key_line(l, key);
            lemma_entry_of_set_line(key, value);
            let kv = line_entry(l)->0;
            assert(m.insert(key, kv.1).insert(key, value) =~= m.insert(key, value));
            assert(m.insert(key, value).insert(key, value) =~= m.insert(key, value));
        } else {
            assert(defines_key(ps[ps.len() - 1], key) ==> starts_with(ps[ps.len() - 1], key.push(',')));
            match line_entry(l) {
                Some(kv) => {
                    assert(kv.0 != key);
                    assert(m.insert(key, value).insert(kv.0, kv.1) =~= m.insert(kv.0, kv.1).insert(key, value));
                },
                None => {},
            }
        }
    }
}

/// Regularity of the lines carries over to the pieces between line feeds.
proof fn lemma_regular_pieces(t: Seq<char>, key: Seq<char>)
    requires
        regular_for(split_lines(t), key),
    ensures
        regular_for(split_by(t, '\n'), key),
{
    let ps = split_by(t, '\n');
    lemma_split_by_len(t, '\n');
    lemma_split_lines_pieces(t);
    lemma_lines_shape(ps);
    let ls = split_lines(t);
    let kc = key.push(',');
    assert forall|i: int| 0 <= i < ps.len() && #[trigger] defines_key(ps[i], key) implies starts_with(ps[i], kc) by {
        lemma_key_strip_cr(ps[i], key);
        if i < ps.len() - 1 {
            assert(ls[i] == strip_cr(ps[i]));
            assert(defines_key(ls[i], key));
            let q = strip_cr(ps[i]);
            assert(starts_with(q, kc));
            assert(ps[i].subrange(0, kc.len() as int) =~= q.subrange(0, kc.len() as int));
        } else {
            lemma_entry_empty();
            assert(ps[i].len() != 0);
            assert(ls[i] == ps[i]);
            assert(defines_key(ls[i], key));
        }
    }
}

/// The pieces after the active pass hold no line feed either.
proof fn lemma_mapped_no_lf(ps: Seq<Seq<char>>, key: Seq<char>, blank: bool, value: Seq<char>)
    requires
        forall|i: int| 0 <= i < ps.len() ==> !(#[trigger] ps[i]).contains('\n'),
        !key.contains('\n'),
        !value.contains('\n'),
    ensures
        forall|i: int| 0 <= i < ps.len() ==> !active_piece(#[trigger] ps[i], key, blank, value).contains('\n'),
{
    assert forall|i: int| 0 <= i < ps.len() implies !active_piece(#[trigger] ps[i], key, blank, value).contains('\n') by {
        let p = ps[i];
        let q = active_piece(p, key, blank, value);
        if q.contains('\n') {
            let j = choose|j: int| 0 <= j < q.len() && q[j] == '\n';
            if starts_with(p, key.push(',')) {
                if blank {
                    if j >= 2 {
                        assert(p[j - 2] == '\n');
                    }
                } else {
                    if j < key.len() {
                        assert(key[j] == '\n');
                    } else if j > key.len() {
                        assert(value[j - key.len() - 1] == '\n');
                    }
                }
            } else {
                assert(p[j] == '\n');
            }
        }
    }
}

/// The pieces of a text with one more character at its end: an empty
/// piece more after a line feed, else the last piece one character longer.
proof fn lemma_push_pieces_shape(x: Seq<char>, c: char)
    ensures
        split_by(x.push(c), '\n') == (if c == '\n' {
            split_by(x, '\n').push(Seq::<char>::empty())
        } else {
            split_by(x, '\n').drop_last().push(split_by(x, '\n').last().push(c))
        }),
{
    reveal_strlit("\n");
    assert("\n"@ =~= seq!['\n']);
    let ps = split_by(x, '\n');
    lemma_split_by_len(x, '\n');
    lemma_pieces_no_lf(x);
    lemma_join_pieces(x);
    if c == '\n' {
        let qs = ps.push(Seq::<char>::empty());
        assert(qs.drop_last() =~= ps);
        assert(join(qs, "\n"@) == x + "\n"@ + Seq::<char>::empty());
        assert(join(qs, "\n"@) =~= x.push(c));
        assert forall|i: int| 0 <= i < qs.len() implies !(#[trigger] qs[i]).contains('\n') by {
            if i < ps.len() {
                assert(qs[i] == ps[i]);
            }
        }
        lemma_pieces_of_join(qs);
    } else {
        let last = ps.last();
        let qs = ps.drop_last().push(last.push(c));
        assert(qs.drop_last() =~= ps.drop_last());
        if ps.len() == 1 {
            assert(join(qs, "\n"@) == qs[0]);
            assert(qs[0] =~= x.push(c));
        } else {
            assert(join(ps, "\n"@) == join(ps.drop_last(), "\n"@) + "\n"@ + last);
            assert(join(qs, "\n"@) == join(ps.drop_last(), "\n"@) + "\n"@ + last.push(c));
            assert(join(qs, "\n"@) =~= x.push(c));
        }
        assert(!ps[ps.len() - 1].contains('\n'));
        assert forall|i: int| 0 <= i < qs.len() implies !(#[trigger] qs[i]).contains('\n') by {
            if i < ps.len() - 1 {
                assert(qs[i] == ps[i]);
            } else {
                assert(qs[i] == last.push(c));
                if qs[i].contains('\n') {
                    let j = choose|j: int| 0 <= j < qs[i].len() && qs[i][j] == '\n';
                    assert(last[j] == '\n');
                }
            }
        }
        lemma_pieces_of_join(qs);
    }
}

/// Appending a line feed, a line and a line feed adds the line as a piece
/// (and an empty one after it).
proof fn lemma_append_line(a: Seq<char>, l: Seq<char>)
    requires
        !l.contains('\n'),
    ensures
        split_by(a + seq!['\n'] + l + seq!['\n'], '\n') == split_by(a, '\n').push(l).push(Seq::<char>::empty()),
{
    reveal_strlit("\n");
    assert("\n"@ =~= seq!['\n']);
    let ps = split_by(a, '\n');
    lemma_split_by_len(a, '\n');
    lemma_pieces_no_lf(a);
    lemma_join_pieces(a);
    let q1 = ps.push(l);
    let q2 = q1.push(Seq::<char>::empty());
    assert(q1.drop_last() =~= ps);
    assert(q2.drop_last() =~= q1);
    assert(join(q1, "\n"@) == a + "\n"@ + l);
    assert(join(q2, "\n"@) == join(q1, "\n"@) + "\n"@ + Seq::<char>::empty());
    assert(join(q2, "\n"@) =~= a + seq!['\n'] + l + seq!['\n']);
    assert forall|i: int| 0 <= i < q2.len() implies !(#[trigger] q2[i]).contains('\n') by {
        if i < ps.len() {
            assert(q2[i] == ps[i]);
        }
    }
    lemma_pieces_of_join(q2);
}

/// The text the active pass writes, read back piece by piece.
proof fn lemma_active_text_pieces(t: Seq<char>, key: Seq<char>, blank: bool, value: Seq<char>)
    requires
        !key.contains('\n'),
        !value.contains('\n'),
    ensures
        split_by(active_scan(t, key, blank, value, true).0, '\n') == split_by(t, '\n').map_values(
            |p: Seq<char>| active_piece(p, key, blank, value),
        ),
{
    let ps = split_by(t, '\n');
    let f = |p: Seq<char>| active_piece(p, key, blank, value);
    lemma_active_scan_pieces(t, key, blank, value);
    lemma_split_by_len(t, '\n');
    lemma_pieces_no_lf(t);
    lemma_mapped_no_lf(ps, key, blank, value);
    let qs = ps.map_values(f);
    assert forall|i: int| 0 <= i < qs.len() implies !(#[trigger] qs[i]).contains('\n') by {
        assert(qs[i] == active_piece(ps[i], key, blank, value));
    }
    lemma_pieces_of_join(qs);
}

/// The line `key,value` does not end in `\r`.
proof fn lemma_set_line_no_cr(key: Seq<char>, value: Seq<char>)
    requires
        clean_value(value),
    ensures
        strip_cr(key.push(',') + value) == key.push(',') + value,
{
    let l = key.push(',') + value;
    assert(is_ws('\r'));
    if value.len() > 0 {
        lemma_trimmed(value);
        assert(l.last() == value.last());
    } else {
        assert(l.last() == ',');
    }
}

/// The active pass does the same to a piece with or without its final `\r`.
proof fn lemma_active_strip_cr(p: Seq<char>, key: Seq<char>, blank: bool, value: Seq<char>)
    requires
        clean_value(value),
    ensures
        strip_cr(active_piece(p, key, blank, value)) == active_piece(strip_cr(p), key, blank, value),
{
    let kc = key.push(',');
    lemma_starts_strip_cr(p, key);
    if starts_with(p, kc) {
        if blank {
            let q = comment_mark() + p;
            assert(q.last() == p.last());
            if p.len() > 0 && p.last() == '\r' {
                assert(q.drop_last() =~= comment_mark() + p.drop_last());
            }
        } else {
            lemma_set_line_no_cr(key, value);
        }
    }
}

/// Reading the pieces as lines commutes with the active pass.
proof fn lemma_cr_active(ps: Seq<Seq<char>>, key: Seq<char>, blank: bool, value: Seq<char>)
    requires
        clean_value(value),
    ensures
        cr_pieces(ps.map_values(|p: Seq<char>| active_piece(p, key, blank, value))) == cr_pieces(ps).map_values(
            |p: Seq<char>| active_piece(p, key, blank, value),
        ),
        has_active(cr_pieces(ps), key) == has_active(ps, key),
{
    let f = |p: Seq<char>| active_piece(p, key, blank, value);
    let cs = cr_pieces(ps);
    assert forall|i: int| 0 <= i < ps.len() implies #[trigger] cr_pieces(ps.map_values(f))[i] == cs.map_values(f)[i] by {
        if i < ps.len() - 1 {
            lemma_active_strip_cr(ps[i], key, blank, value);
        }
    }
    assert(cr_pieces(ps.map_values(f)) =~= cs.map_values(f));
    if has_active(ps, key) {
        let i = choose|i: int| 0 <= i < ps.len() && starts_with(#[trigger] ps[i], key.push(','));
        lemma_starts_strip_cr(ps[i], key);
        assert(starts_with(cs[i], key.push(',')));
    }
    if has_active(cs, key) {
        let i = choose|i: int| 0 <= i < cs.len() && starts_with(#[trigger] cs[i], key.push(','));
        lemma_starts_strip_cr(ps[i], key);
        assert(starts_with(ps[i], key.push(',')));
    }
}

/// Whitespace at every position up to `top` leaves no place where `key,` occurs.
proof fn lemma_no_key_in_ws(r: Seq<char>, key: Seq<char>, top: nat)
    requires
        clean_key(key),
        forall|i: int| 0 <= i < top ==> is_ws(#[trigger] r[i]),
        top == r.len(),
    ensures
        last_at(r, key.push(','), top) is None,
{
    let kc = key.push(',');
    lemma_key_comma(key);
    assert forall|j: int| 0 <= j <= top implies !#[trigger] occurs_at(r, kc, j) by {
        if occurs_at(r, kc, j) {
            assert(r.skip(j).subrange(0, kc.len() as int)[0] == kc[0]);
            if j < r.len() {
                assert(r.skip(j)[0] == r[j]);
            }
        }
    }
    lemma_last_at_skip(r, kc, top, 0);
    assert(!occurs_at(r, kc, 0));
}

/// A commented-out `key,` line is one with or without its final `\r`.
proof fn lemma_commented_match_cr(p: Seq<char>, key: Seq<char>)
    requires
        clean_key(key),
    ensures
        (commented_match(strip_cr(p), key) is Some) == (commented_match(p, key) is Some),
{
    if p.len() > 0 && p.last() == '\r' {
        let x = p.drop_last();
        let kc = key.push(',');
        let cm = comment_mark();
        lemma_key_comma(key);
        assert(x.push('\r') =~= p);
        lemma_starts_push(x, '\r', cm);
        if starts_with(x, cm) {
            let rx = x.skip(2);
            let rp = p.skip(2);
            let cr = seq!['\r'];
            assert(rp =~= rx + cr);
            assert(is_ws('\r'));
            assert(cr.drop_first() =~= Seq::<char>::empty());
            assert(cr.len() == 1 && cr[0] == '\r');
            assert(ws_run(Seq::<char>::empty()) == 0);
            assert(ws_run(cr) == 1);
            lemma_ws_run_concat(rx, cr);
            lemma_ws_run(rx);
            lemma_ws_run(rp);
            if ws_run(rx) < rx.len() {
                assert forall|j: int| 0 <= j <= ws_run(rx) implies #[trigger] occurs_at(rp, kc, j) == occurs_at(
                    rx,
                    kc,
                    j,
                ) by {
                    assert(rp.skip(j) =~= rx.skip(j).push('\r'));
                    lemma_starts_push(rx.skip(j), '\r', kc);
                }
                lemma_last_at_agree(rp, rx, kc, ws_run(rx));
            } else {
                lemma_no_key_in_ws(rx, key, ws_run(rx));
                lemma_no_key_in_ws(rp, key, ws_run(rp));
            }
        }
    }
}

/// Reading the pieces as lines commutes with the commented pass.
proof fn lemma_cr_commented(ps: Seq<Seq<char>>, key: Seq<char>, value: Seq<char>)
    requires
        clean_key(key),
        clean_value(value),
    ensures
        cr_pieces(ps.map_values(|p: Seq<char>| commented_piece(p, key, value))) == cr_pieces(ps).map_values(
            |p: Seq<char>| commented_piece(p, key, value),
        ),
        has_commented_piece(cr_pieces(ps), key) == has_commented_piece(ps, key),
{
    let f = |p: Seq<char>| commented_piece(p, key, value);
    let cs = cr_pieces(ps);
    lemma_set_line_no_cr(key, value);
    assert forall|i: int| 0 <= i < ps.len() implies #[trigger] cr_pieces(ps.map_values(f))[i] == cs.map_values(f)[i] by {
        if i < ps.len() - 1 {
            lemma_commented_match_cr(ps[i], key);
        }
    }
    assert(cr_pieces(ps.map_values(f)) =~= cs.map_values(f));
    if has_commented_piece(ps, key) {
        let i = choose|i: int| 0 <= i < ps.len() && (commented_match(#[trigger] ps[i], key) is Some);
        lemma_commented_match_cr(ps[i], key);
        assert(commented_match(cs[i], key) is Some);
    }
    if has_commented_piece(cs, key) {
        let i = choose|i: int| 0 <= i < cs.len() && (commented_match(#[trigger] cs[i], key) is Some);
        lemma_commented_match_cr(ps[i], key);
        assert(commented_match(ps[i], key) is Some);
    }
}

/// A text that ends in non-whitespace ends its last piece: that piece has
/// no final `\r`.
proof fn lemma_trim_end_last_piece(t: Seq<char>)
    ensures
        strip_cr(split_by(trim_end(t), '\n').last()) == split_by(trim_end(t), '\n').last(),
{
    let a = trim_end(t);
    let qa = split_by(a, '\n');
    lemma_split_by_len(a, '\n');
    lemma_join_pieces(a);
    lemma_trim_end_last(t);
    let last = qa.last();
    if last.len() > 0 {
        reveal_strlit("\n");
        if qa.len() > 1 {
            assert(a == join(qa.drop_last(), "\n"@) + "\n"@ + last);
        }
        assert(a.last() == last.last());
        assert(is_ws('\r'));
    }
}

/// Trimming the end leaves a text that is empty or ends in non-whitespace.
pub(crate) proof fn lemma_trim_end_last(t: Seq<char>)
    ensures
        trim_end(t).len() > 0 ==> !is_ws(trim_end(t).last()),
    decreases t.len(),
{
    if t.len() > 0 && is_ws(t.last()) {
        lemma_trim_end_last(t.drop_last());
    }
}

/// A line's entry with the trailing whitespace of its value cut.
spec fn trim_val(e: Option<(Seq<char>, Seq<char>)>) -> Option<(Seq<char>, Seq<char>)> {
    match e {
        Some(kv) => Some((kv.0, trim_end(kv.1))),
        None => None,
    }
}

/// Whitespace pushed after a text leaves its trimmed-at-both-ends form as it was.
proof fn lemma_trim_start_push_ws(a: Seq<char>, c: char)
    requires
        is_ws(c),
    ensures
        trim_end(trim_start(a.push(c))) == trim_end(trim_start(a)),
    decreases a.len(),
{
    if a.len() == 0 {
        assert(a.push(c).drop_first() =~= Seq::<char>::empty());
        assert(trim_start(a.push(c)) == trim_start(Seq::<char>::empty()));
    } else if is_ws(a[0]) {
        assert(a.push(c).drop_first() =~= a.drop_first().push(c));
        lemma_trim_start_push_ws(a.drop_first(), c);
    } else {
        assert(a.push(c)[0] == a[0]);
        assert(a.push(c).drop_last() =~= a);
    }
}

/// Whitespace pushed at the end of a line changes its entry only by
/// whitespace at the end of the value.
proof fn lemma_entry_push_ws(x: Seq<char>, c: char)
    requires
        is_ws(c),
    ensures
        trim_val(line_entry(x.push(c))) == trim_val(line_entry(x)),
{
    let y = x.push(c);
    assert(!is_ws(','));
    lemma_trim_push_ws(x, c);
    lemma_find_char_push(x, c, ',');
    lemma_find_char(x, ',');
    match find_char(x, ',') {
        Some(p) => {
            assert(y.subrange(0, p) =~= x.subrange(0, p));
            assert(y.subrange(p + 1, y.len() as int) =~= x.subrange(p + 1, x.len() as int).push(c));
            lemma_trim_start_push_ws(x.subrange(p + 1, x.len() as int), c);
        },
        None => {},
    }
}

/// Leaving out leading whitespace keeps the last character.
proof fn lemma_trim_start_last(s: Seq<char>)
    ensures
        trim_start(s).len() > 0 ==> trim_start(s).last() == s.last(),
    decreases s.len(),
{
    if s.len() > 0 && is_ws(s[0]) {
        lemma_trim_start_last(s.drop_first());
    }
}

/// A line that ends in non-whitespace has a value without trailing whitespace.
proof fn lemma_entry_clean_end(l: Seq<char>)
    requires
        l.len() == 0 || !is_ws(l.last()),
    ensures
        trim_val(line_entry(l)) == line_entry(l),
{
    lemma_find_char(l, ',');
    match find_char(l, ',') {
        Some(p) => {
            let s = l.subrange(p + 1, l.len() as int);
            lemma_trim_start_last(s);
            let v = trim_start(s);
            if v.len() > 0 {
                assert(s.last() == l.last());
                assert(v.drop_last().push(v.last()) =~= v);
            }
        },
        None => {},
    }
}

/// A line with its trailing whitespace cut defines what it defined, the
/// value's trailing whitespace cut.
proof fn lemma_entry_trim_end(l: Seq<char>)
    ensures
        line_entry(trim_end(l)) == trim_val(line_entry(l)),
    decreases l.len(),
{
    if l.len() > 0 && is_ws(l.last()) {
        let x = l.drop_last();
        assert(x.push(l.last()) =~= l);
        lemma_entry_trim_end(x);
        lemma_entry_push_ws(x, l.last());
    } else {
        lemma_entry_clean_end(l);
    }
}

/// Cutting trailing whitespace from `a + b`, where `b` holds something else,
/// cuts it from `b` alone.
proof fn lemma_trim_end_concat(a: Seq<char>, b: Seq<char>, i: int)
    requires
        0 <= i < b.len(),
        !is_ws(b[i]),
    ensures
        trim_end(a + b) == a + trim_end(b),
    decreases b.len(),
{
    if is_ws(b.last()) {
        assert((a + b).last() == b.last());
        assert((a + b).drop_last() =~= a + b.drop_last());
        lemma_trim_end_concat(a, b.drop_last(), i);
    } else {
        assert((a + b).last() == b.last());
    }
}

/// Whitespace after a text goes when its trailing whitespace is cut.
proof fn lemma_trim_end_ws_suffix(a: Seq<char>, w: Seq<char>)
    requires
        forall|i: int| 0 <= i < w.len() ==> is_ws(#[trigger] w[i]),
    ensures
        trim_end(a + w) == trim_end(a),
    decreases w.len(),
{
    if w.len() == 0 {
        assert(a + w =~= a);
    } else {
        assert((a + w).last() == w[w.len() - 1]);
        assert((a + w).drop_last() =~= a + w.drop_last());
        lemma_trim_end_ws_suffix(a, w.drop_last());
    }
}

/// A text of whitespace only defines nothing.
proof fn lemma_entry_all_ws(l: Seq<char>)
    requires
        forall|i: int| 0 <= i < l.len() ==> is_ws(#[trigger] l[i]),
    ensures
        line_entry(l) is None,
    decreases l.len(),
{
    if l.len() > 0 {
        lemma_entry_all_ws(l.drop_first());
        assert(trim_start(l) == trim_start(l.drop_first()));
    } else {
        lemma_entry_empty();
    }
}

/// Cutting a text's trailing whitespace keeps every key it defines, and
/// adds none, each value as it was or with its own trailing whitespace cut.
proof fn lemma_trim_end_entries(t: Seq<char>)
    ensures
        descript_map(trim_end(t)).dom() == descript_map(t).dom(),
        forall|k: Seq<char>| #[trigger] descript_map(t).contains_key(k) ==> descript_map(trim_end(t)).contains_key(k) && (
        descript_map(trim_end(t))[k] == descript_map(t)[k] || descript_map(trim_end(t))[k] == trim_end(
            descript_map(t)[k],
        )),
    decreases t.len(),
{
    reveal_strlit("\n");
    assert("\n"@ =~= seq!['\n']);
    let ps = split_by(t, '\n');
    let n = ps.len();
    lemma_split_by_len(t, '\n');
    lemma_join_pieces(t);
    lemma_pieces_no_lf(t);
    lemma_descript_pieces(t);
    let pl = ps.last();
    let init = ps.drop_last();
    let m = descript_map(t);
    let te = trim_end(t);
    if exists|i: int| 0 <= i < pl.len() && !is_ws(#[trigger] pl[i]) {
        let i = choose|i: int| 0 <= i < pl.len() && !is_ws(#[trigger] pl[i]);
        let q = trim_end(pl);
        lemma_trim_end_prefix(pl, i + 1);
        lemma_trim_end_len(pl);
        assert(q == pl.take(q.len() as int));
        assert(!q.contains('\n')) by {
            if q.contains('\n') {
                let j = choose|j: int| 0 <= j < q.len() && q[j] == '\n';
                assert(q[j] == pl.take(q.len() as int)[j]);
                assert(!ps[n - 1].contains('\n'));
            }
        }
        let qs = init.push(q);
        if n == 1 {
            assert(t == pl);
            assert(join(qs, "\n"@) == q);
        } else {
            let a = join(init, "\n"@) + "\n"@;
            assert(t == join(init, "\n"@) + "\n"@ + pl);
            lemma_trim_end_concat(a, pl, i);
            assert(qs.drop_last() =~= init);
            assert(join(qs, "\n"@) == join(init, "\n"@) + "\n"@ + q);
        }
        assert(te == join(qs, "\n"@));
        assert forall|j: int| 0 <= j < qs.len() implies !(#[trigger] qs[j]).contains('\n') by {
            if j < n - 1 {
                assert(qs[j] == ps[j]);
            }
        }
        lemma_pieces_of_join(qs);
        lemma_descript_pieces(te);
        let cp = cr_pieces(ps);
        let cq = cr_pieces(qs);
        assert(cq.drop_last() =~= cp.drop_last());
        assert(cp =~= cp.drop_last().push(pl));
        assert(cq =~= cp.drop_last().push(q));
        lemma_entry_trim_end(pl);
        let x = cp.drop_last();
        assert(x.push(pl).drop_last() =~= x);
        assert(x.push(q).drop_last() =~= x);
        assert(x.push(pl).last() == pl);
        assert(x.push(q).last() == q);
        assert(m == entries_map(x.push(pl)));
        assert(descript_map(te) == entries_map(x.push(q)));
        assert(descript_map(te).dom() =~= m.dom());
    } else {
        assert forall|j: int| 0 <= j < pl.len() implies is_ws(#[trigger] pl[j]) by {}
        lemma_entry_all_ws(pl);
        let cp = cr_pieces(ps);
        let x = cp.drop_last();
        assert(cp =~= x.push(pl));
        assert(x.push(pl).drop_last() =~= x);
        assert(m == entries_map(x));
        if n == 1 {
            assert(x.len() == 0);
            assert(m =~= Map::<Seq<char>, Seq<char>>::empty());
            assert(t == pl);
            lemma_trim_end_ws_suffix(Seq::<char>::empty(), pl);
            assert(Seq::<char>::empty() + pl =~= pl);
            assert(te =~= Seq::<char>::empty());
            assert(split_lines(te) =~= Seq::<Seq<char>>::empty());
            assert(descript_map(te) =~= Map::<Seq<char>, Seq<char>>::empty());
        } else {
            let y = join(init, "\n"@);
            let w = seq!['\n'] + pl;
            assert(t == y + "\n"@ + pl);
            assert(t =~= y + w);
            assert forall|j: int| 0 <= j < w.len() implies is_ws(#[trigger] w[j]) by {
                if j > 0 {
                    assert(w[j] == pl[j - 1]);
                }
            }
            lemma_trim_end_ws_suffix(y, w);
            assert forall|j: int| 0 <= j < init.len() implies !(#[trigger] init[j]).contains('\n') by {
                assert(init[j] == ps[j]);
            }
            lemma_pieces_of_join(init);
            let ys = if y.len() > 0 && y.last() == '\r' {
                y.drop_last()
            } else {
                y
            };
            assert(trim_end(ys) == trim_end(y));
            let zs = split_by(ys, '\n');
            lemma_split_by_len(ys, '\n');
            if y.len() > 0 && y.last() == '\r' {
                assert(ys.push('\r') =~= y);
                lemma_push_pieces_shape(ys, '\r');
                assert(zs.len() == init.len());
                assert(init.last() == zs.last().push('\r'));
                assert(zs.last().push('\r').drop_last() =~= zs.last());
                assert forall|j: int| 0 <= j < zs.len() implies #[trigger] cr_pieces(zs)[j] == x[j] by {
                    if j < zs.len() - 1 {
                        assert(zs[j] == init[j]);
                    }
                }
                assert(cr_pieces(zs) =~= x);
            } else {
                assert(zs == init);
                if init.last().len() > 0 {
                    if init.len() > 1 {
                        assert(y == join(init.drop_last(), "\n"@) + "\n"@ + init.last());
                    }
                    assert(y.last() == init.last().last());
                }
                assert forall|j: int| 0 <= j < zs.len() implies #[trigger] cr_pieces(zs)[j] == x[j] by {
                    assert(zs[j] == init[j]);
                }
                assert(cr_pieces(zs) =~= x);
            }
            lemma_descript_pieces(ys);
            lemma_trim_end_entries(ys);
        }
    }
}

/// A key whose value has no trailing whitespace keeps it when the text's
/// trailing whitespace is cut.
proof fn lemma_clean_value_survives(t: Seq<char>, k: Seq<char>)
    requires
        descript_map(t).contains_key(k),
        trim_end(descript_map(t)[k]) == descript_map(t)[k],
    ensures
        descript_map(trim_end(t)).contains_key(k),
        descript_map(trim_end(t))[k] == descript_map(t)[k],
{
    lemma_trim_end_entries(t);
}

/// Cutting a text's trailing whitespace adds no key.
proof fn lemma_trim_end_no_new_key(t: Seq<char>, k: Seq<char>)
    requires
        !descript_map(t).contains_key(k),
    ensures
        !descript_map(trim_end(t)).contains_key(k),
{
    lemma_trim_end_entries(t);
}

/// Where setting `key` to `value` appends a new line, cutting the text's
/// trailing whitespace first changes none of its entries (it would shorten a
/// value on the last line).
pub open spec fn append_keeps_entries(t: Seq<char>, key: Seq<char>, value: Seq<char>) -> bool {
    appends_line(t, key, value) ==> descript_map(trim_end(t)) == descript_map(t)
}

/// Setting `key` to `value` appends a new line: no line sets the key and
/// no commented-out line for it is revived.
pub open spec fn appends_line(t: Seq<char>, key: Seq<char>, value: Seq<char>) -> bool {
    !active_scan(t, key, false, value, true).1 && !commented_scan(t, key, value, true).1
}

/// Setting one key keeps every other key whose value has no trailing
/// whitespace, with that value.
///
/// This holds for a key and value as `law_set_then_read` takes them.
pub proof fn law_set_keeps_clean_values(t: Seq<char>, key: Seq<char>, value: Seq<char>, other: Seq<char>)
    requires
        clean_key(key),
        clean_value(value),
        value.len() > 0,
        regular_for(split_lines(t), key),
        other != key,
        descript_map(t).contains_key(other),
        trim_end(descript_map(t)[other]) == descript_map(t)[other],
    ensures
        descript_map(set_value_text(t, key, value)).contains_key(other),
        descript_map(set_value_text(t, key, value))[other] == descript_map(t)[other],
{
    law_set_then_read(t, key, value);
    if appends_line(t, key, value) {
        lemma_clean_value_survives(t, other);
    }
}

/// Clearing a key, then reading the text back: the key is gone and every
/// other key keeps its value.
///
/// This holds for a key that the text spells only as `key,…` at the start of
/// a line (every line that defines it does so), and that has no comma, line
/// feed, surrounding whitespace or leading `//`.
pub proof fn law_clear_then_read(t: Seq<char>, key: Seq<char>)
    requires
        clean_key(key),
        regular_for(split_lines(t), key),
    ensures
        descript_map(set_value_text(t, key, Seq::empty())) == descript_map(t).remove(key),
{
    let e = Seq::<char>::empty();
    let ps = split_by(t, '\n');
    assert(trim(e) =~= e);
    lemma_active_text_pieces(t, key, true, e);
    lemma_descript_pieces(set_value_text(t, key, e));
    lemma_descript_pieces(t);
    lemma_regular_cr(t, key);
    lemma_cr_active(ps, key, true, e);
    lemma_blank_pieces(cr_pieces(ps), key, e);
}

/// Setting a key, then reading the text back: the key holds the new value.
/// Every other key keeps its value, except that where the key has no line
/// and a new line is appended, the text's trailing whitespace is cut first
/// (`a,b  ` as the last line loses the spaces of its value).
///
/// This holds for a key and a non-empty value as `law_clear_then_read`
/// describes them (the value without line feed or surrounding whitespace),
/// whether the key's line is rewritten, a commented-out `//key,` line is
/// revived, or a new line is appended.
pub proof fn law_set_then_read(t: Seq<char>, key: Seq<char>, value: Seq<char>)
    requires
        clean_key(key),
        clean_value(value),
        value.len() > 0,
        regular_for(split_lines(t), key),
    ensures
        descript_map(set_value_text(t, key, value)).contains_key(key),
        descript_map(set_value_text(t, key, value))[key] == value,
        descript_map(set_value_text(t, key, value)) == (if appends_line(t, key, value) {
            descript_map(trim_end(t)).insert(key, value)
        } else {
            descript_map(t).insert(key, value)
        }),
        append_keeps_entries(t, key, value) ==> descript_map(set_value_text(t, key, value)) == descript_map(
            t,
        ).insert(key, value),
{
    let ps = split_by(t, '\n');
    let cs = cr_pieces(ps);
    let kc = key.push(',');
    let out = set_value_text(t, key, value);
    lemma_regular_pieces(t, key);
    lemma_regular_cr(t, key);
    lemma_descript_pieces(t);
    lemma_descript_pieces(out);
    lemma_active_scan_pieces(t, key, false, value);
    if has_active(ps, key) {
        lemma_active_text_pieces(t, key, false, value);
        lemma_cr_active(ps, key, false, value);
        lemma_set_pieces(cs, key, value);
        assert(out == active_scan(t, key, false, value, true).0);
        assert(split_by(out, '\n') == ps.map_values(|p: Seq<char>| active_piece(p, key, false, value)));
    } else if commented_scan(t, key, value, true).1 {
        assert forall|i: int| 0 <= i < ps.len() implies !#[trigger] defines_key(ps[i], key) by {
            if defines_key(ps[i], key) {
                assert(starts_with(ps[i], kc));
            }
        }
        assert(undefined_in(t, key));
        lemma_commented_scan_pieces(t, key, value);
        lemma_commented_text_pieces(t, key, value);
        lemma_cr_commented(ps, key, value);
        assert forall|i: int| 0 <= i < cs.len() implies !#[trigger] defines_key(cs[i], key) by {
            lemma_key_strip_cr(ps[i], key);
        }
        lemma_commented_pieces(cs, key, value);
        assert(out == commented_scan(t, key, value, true).0);
    } else {
        let a = trim_end(t);
        let l = kc + value;
        let e = Seq::<char>::empty();
        assert(!l.contains('\n')) by {
            if l.contains('\n') {
                let j = choose|j: int| 0 <= j < l.len() && l[j] == '\n';
                if j < key.len() {
                    assert(key[j] == '\n');
                } else if j > key.len() {
                    assert(value[j - key.len() - 1] == '\n');
                }
            }
        }
        assert(out =~= a + seq!['\n'] + l + seq!['\n']);
        lemma_append_line(a, l);
        let qa = split_by(a, '\n');
        lemma_split_by_len(a, '\n');
        lemma_descript_pieces(a);
        lemma_trim_end_last_piece(t);
        lemma_set_line_no_cr(key, value);
        let qs = qa.push(l).push(e);
        let ca = cr_pieces(qa);
        assert(cr_pieces(qs) =~= ca.push(l).push(e));
        lemma_entry_empty();
        lemma_entry_of_set_line(key, value);
        assert(ca.push(l).push(e).drop_last() =~= ca.push(l));
        assert(ca.push(l).drop_last() =~= ca);
        assert(ca.push(l).push(e).last() == e);
        assert(ca.push(l).last() == l);
        assert(entries_map(ca.push(l).push(e)) == entries_map(ca.push(l)));
        assert(entries_map(ca.push(l)) == entries_map(ca).insert(key, value));
        assert(entries_map(cr_pieces(qs)) == entries_map(ca).insert(key, value));
        assert(descript_map(out) == descript_map(a).insert(key, value));
    }
}

/// `key,` holds no line feed and starts with a non-whitespace character.
proof fn lemma_key_comma(key: Seq<char>)
    requires
        clean_key(key),
    ensures
        !key.push(',').contains('\n'),
        !is_ws(key.push(',')[0]),
{
    let kc = key.push(',');
    if key.len() > 0 {
        lemma_trimmed(key);
        assert(kc[0] == key[0]);
    }
    assert(!kc.contains('\n')) by {
        if kc.contains('\n') {
            let j = choose|j: int| 0 <= j < kc.len() && kc[j] == '\n';
            if j < key.len() {
                assert(key[j] == '\n');
            }
        }
    }
}

/// `pat` occurs in `r` at position `j`.
pub open spec fn occurs_at(r: Seq<char>, pat: Seq<char>, j: int) -> bool {
    0 <= j <= r.len() && starts_with(r.skip(j), pat)
}

/// The leading whitespace run: whitespace only, within the text, and
/// followed by a non-whitespace character if it stops early.
proof fn lemma_ws_run(t: Seq<char>)
    ensures
        ws_run(t) <= t.len(),
        forall|i: int| 0 <= i < ws_run(t) ==> is_ws(#[trigger] t[i]),
        ws_run(t) < t.len() ==> !is_ws(t[ws_run(t) as int]),
    decreases t.len(),
{
    if t.len() > 0 && is_ws(t[0]) {
        lemma_ws_run(t.drop_first());
        assert forall|i: int| 0 <= i < ws_run(t) implies is_ws(#[trigger] t[i]) by {
            if i > 0 {
                assert(t[i] == t.drop_first()[i - 1]);
            }
        }
    }
}

/// The whitespace run of `a + b`.
proof fn lemma_ws_run_concat(a: Seq<char>, b: Seq<char>)
    ensures
        ws_run(a) < a.len() ==> ws_run(a + b) == ws_run(a),
        ws_run(a) == a.len() ==> ws_run(a + b) == a.len() + ws_run(b),
    decreases a.len(),
{
    lemma_ws_run(a);
    if a.len() == 0 {
        assert(a + b =~= b);
    } else if is_ws(a[0]) {
        assert((a + b).drop_first() =~= a.drop_first() + b);
        lemma_ws_run_concat(a.drop_first(), b);
    } else {
        assert((a + b)[0] == a[0]);
    }
}

/// `last_at` reads only whether the pattern occurs at the positions it may return.
proof fn lemma_last_at_agree(r: Seq<char>, s: Seq<char>, pat: Seq<char>, top: nat)
    requires
        forall|j: int| 0 <= j <= top ==> #[trigger] occurs_at(r, pat, j) == occurs_at(s, pat, j),
    ensures
        last_at(r, pat, top) == last_at(s, pat, top),
    decreases top,
{
    assert(occurs_at(r, pat, top as int) == occurs_at(s, pat, top as int));
    if top > 0 {
        lemma_last_at_agree(r, s, pat, (top - 1) as nat);
    }
}

/// Positions above `lo` where the pattern does not occur leave `last_at` as it is at `lo`.
proof fn lemma_last_at_skip(r: Seq<char>, pat: Seq<char>, top: nat, lo: nat)
    requires
        lo <= top,
        forall|j: int| lo < j <= top ==> !#[trigger] occurs_at(r, pat, j),
    ensures
        last_at(r, pat, top) == last_at(r, pat, lo),
    decreases top,
{
    if top > lo {
        assert(!occurs_at(r, pat, top as int));
        lemma_last_at_skip(r, pat, (top - 1) as nat, lo);
    }
}

/// Within a line, a pattern without line feeds occurs at the same places
/// whatever follows the line end.
proof fn lemma_occurs_in_line(x: Seq<char>, rest: Seq<char>, pat: Seq<char>, j: int)
    requires
        !pat.contains('\n'),
        pat.len() > 0,
        at_line_end(rest),
        0 <= j <= x.len(),
    ensures
        occurs_at(x + rest, pat, j) == occurs_at(x, pat, j),
{
    let r = x + rest;
    if j + pat.len() <= x.len() {
        assert(r.skip(j).subrange(0, pat.len() as int) =~= x.skip(j).subrange(0, pat.len() as int));
    } else {
        if occurs_at(r, pat, j) {
            let k = x.len() - j;
            assert(rest.len() > 0);
            assert(r[x.len() as int] == '\n');
            assert(r.skip(j).subrange(0, pat.len() as int)[k] == r[x.len() as int]);
            assert(pat[k] == '\n');
        }
    }
}

/// Leading whitespace does not change which key a `key,` line defines.
proof fn lemma_entry_ws_prefix(w: Seq<char>, y: Seq<char>, key: Seq<char>)
    requires
        clean_key(key),
        forall|i: int| 0 <= i < w.len() ==> is_ws(#[trigger] w[i]),
        starts_with(y, key.push(',')),
    ensures
        defines_key(w + y, key),
    decreases w.len(),
{
    lemma_key_comma(key);
    if w.len() == 0 {
        assert(w + y =~= y);
        lemma_entry_of_key_line(y, key);
    } else {
        assert((w + y).drop_first() =~= w.drop_first() + y);
        assert(forall|i: int| 0 <= i < w.drop_first().len() ==> w.drop_first()[i] == w[i + 1]);
        lemma_entry_ws_prefix(w.drop_first(), y, key);
        assert(w[0] == (w + y)[0]);
        lemma_entry_drop_ws(w + y);
    }
}

/// A `key,` line reached from the start of a text through whitespace, line
/// feeds among it: the piece it lies in defines the key.
proof fn lemma_landing(t: Seq<char>, key: Seq<char>, j: int)
    requires
        clean_key(key),
        0 <= j <= t.len(),
        forall|i: int| 0 <= i < j ==> is_ws(#[trigger] t[i]),
        starts_with(t.skip(j), key.push(',')),
    ensures
        exists|i: int| 0 <= i < split_by(t, '\n').len() && #[trigger] defines_key(split_by(t, '\n')[i], key),
    decreases t.len(),
{
    lemma_find_char(t, '\n');
    lemma_key_comma(key);
    let ps = split_by(t, '\n');
    let kc = key.push(',');
    match find_char(t, '\n') {
        None => {
            assert(forall|i: int| 0 <= i < t.take(j).len() ==> t.take(j)[i] == t[i]);
            lemma_entry_ws_prefix(t.take(j), t.skip(j), key);
            assert(t.take(j) + t.skip(j) =~= t);
            assert(defines_key(ps[0], key));
        },
        Some(i) => {
            if j > i {
                let t2 = t.skip(i + 1);
                assert(t2.skip(j - i - 1) =~= t.skip(j));
                assert(forall|k: int| 0 <= k < j - i - 1 ==> t2[k] == t[k + i + 1]);
                lemma_landing(t2, key, j - i - 1);
                let k = choose|k: int| 0 <= k < split_by(t2, '\n').len() && #[trigger] defines_key(split_by(t2, '\n')[k], key);
                assert(ps[k + 1] == split_by(t2, '\n')[k]);
            } else {
                if j + kc.len() > i {
                    assert(t.skip(j).subrange(0, kc.len() as int)[i - j] == t[i]);
                    assert(kc[i - j] == '\n');
                }
                let p0 = t.take(i);
                assert(forall|k: int| 0 <= k < p0.take(j).len() ==> p0.take(j)[k] == t[k]);
                assert(p0.skip(j).subrange(0, kc.len() as int) =~= t.skip(j).subrange(0, kc.len() as int));
                lemma_entry_ws_prefix(p0.take(j), p0.skip(j), key);
                assert(p0.take(j) + p0.skip(j) =~= p0);
                assert(defines_key(ps[0], key));
            }
        },
    }
}

/// No piece of `t` defines `key`.
pub open spec fn undefined_in(t: Seq<char>, key: Seq<char>) -> bool {
    forall|i: int| 0 <= i < split_by(t, '\n').len() ==> !#[trigger] defines_key(split_by(t, '\n')[i], key)
}

/// The commented match at the start of a line sees that line only, when no
/// later line defines the key; it then takes the whole line.
proof fn lemma_commented_match_line(p: Seq<char>, rest: Seq<char>, key: Seq<char>)
    requires
        clean_key(key),
        !p.contains('\n'),
        at_line_end(rest),
        rest.len() > 0 ==> undefined_in(rest.drop_first(), key),
    ensures
        commented_match(p + rest, key) == commented_match(p, key),
        commented_match(p, key) is Some ==> commented_match(p, key)->0 == p.len(),
{
    let t = p + rest;
    let cm = comment_mark();
    let kc = key.push(',');
    lemma_key_comma(key);
    if p.len() >= 2 {
        assert(t.subrange(0, 2) =~= p.subrange(0, 2));
    } else if rest.len() > 0 {
        assert(t[p.len() as int] == '\n');
        if starts_with(t, cm) {
            assert(t.subrange(0, 2)[p.len() as int] == t[p.len() as int]);
        }
    } else {
        assert(t =~= p);
    }
    if starts_with(p, cm) {
        let x = p.skip(2);
        let r = t.skip(2);
        assert(r =~= x + rest);
        assert(!x.contains('\n')) by {
            if x.contains('\n') {
                let k = choose|k: int| 0 <= k < x.len() && x[k] == '\n';
                assert(p[k + 2] == '\n');
            }
        }
        lemma_ws_run(x);
        lemma_ws_run(r);
        lemma_ws_run_concat(x, rest);
        assert forall|j: int| 0 <= j <= x.len() implies #[trigger] occurs_at(r, kc, j) == occurs_at(x, kc, j) by {
            lemma_occurs_in_line(x, rest, kc, j);
        }
        if ws_run(x) < x.len() {
            lemma_last_at_agree(r, x, kc, ws_run(x));
        } else {
            assert forall|j: int| x.len() < j <= ws_run(r) implies !#[trigger] occurs_at(r, kc, j) by {
                if occurs_at(r, kc, j) {
                    let t2 = rest.drop_first();
                    let j2 = j - x.len() - 1;
                    assert(rest.len() > 0);
                    assert(t2.skip(j2) =~= r.skip(j));
                    assert forall|k: int| 0 <= k < j2 implies is_ws(#[trigger] t2[k]) by {
                        assert(t2[k] == r[k + x.len() + 1]);
                    }
                    lemma_landing(t2, key, j2);
                }
            }
            lemma_last_at_skip(r, kc, ws_run(r), x.len() as nat);
            lemma_last_at_agree(r, x, kc, x.len() as nat);
        }
        match last_at(x, kc, ws_run(x)) {
            Some(j) => {
                assert(last_at(r, kc, ws_run(r)) == Some(j));
                lemma_last_at_found(x, kc, ws_run(x));
                let y = x.skip(j + key.len() + 1int);
                assert(!y.contains('\n')) by {
                    if y.contains('\n') {
                        let k = choose|k: int| 0 <= k < y.len() && y[k] == '\n';
                        assert(x[k + j + key.len() + 1] == '\n');
                    }
                }
                assert(r.skip(j + key.len() + 1int) =~= y + rest);
                lemma_line_len(y, rest);
                lemma_line_len(y, Seq::empty());
                assert(y + Seq::<char>::empty() =~= y);
            },
            None => {},
        }
    }
}

/// What `last_at` returns is a place where the pattern occurs, no higher than `top`.
proof fn lemma_last_at_found(r: Seq<char>, pat: Seq<char>, top: nat)
    ensures
        last_at(r, pat, top) is Some ==> last_at(r, pat, top)->0 <= top && occurs_at(
            r,
            pat,
            last_at(r, pat, top)->0 as int,
        ),
    decreases top,
{
    if top > 0 {
        lemma_last_at_found(r, pat, (top - 1) as nat);
    }
}

/// What the commented pass makes of one piece at the start of a line: a
/// commented-out `key,` line becomes `key,value`; any other piece stays.
pub open spec fn commented_piece(p: Seq<char>, key: Seq<char>, value: Seq<char>) -> Seq<char> {
    if commented_match(p, key) is Some {
        key.push(',') + value
    } else {
        p
    }
}

/// Some piece is a commented-out `key,` line.
pub open spec fn has_commented_piece(ps: Seq<Seq<char>>, key: Seq<char>) -> bool {
    exists|i: int| 0 <= i < ps.len() && (commented_match(#[trigger] ps[i], key) is Some)
}

/// Inside a line, the commented pass copies characters up to the line end.
proof fn lemma_commented_inside(p: Seq<char>, rest: Seq<char>, key: Seq<char>, value: Seq<char>)
    requires
        !p.contains('\n'),
    ensures
        commented_scan(p + rest, key, value, false) == (
            p + commented_scan(rest, key, value, false).0,
            commented_scan(rest, key, value, false).1,
        ),
    decreases p.len(),
{
    if p.len() == 0 {
        assert(p + rest =~= rest);
        assert(p + commented_scan(rest, key, value, false).0 =~= commented_scan(rest, key, value, false).0);
    } else {
        let t = p + rest;
        assert(t[0] == p[0]);
        assert(t.drop_first() =~= p.drop_first() + rest);
        assert(!p.drop_first().contains('\n')) by {
            if p.drop_first().contains('\n') {
                let j = choose|j: int| 0 <= j < p.drop_first().len() && p.drop_first()[j] == '\n';
                assert(p[j + 1] == '\n');
            }
        }
        assert(p[0] != '\n');
        lemma_commented_inside(p.drop_first(), rest, key, value);
        assert(seq![p[0]] + (p.drop_first() + commented_scan(rest, key, value, false).0) =~= p
            + commented_scan(rest, key, value, false).0);
    }
}

/// After a line feed the commented pass is where it would be at the start of a line.
proof fn lemma_commented_after_lf(t2: Seq<char>, key: Seq<char>, value: Seq<char>)
    ensures
        commented_scan(seq!['\n'] + t2, key, value, false) == (
            seq!['\n'] + commented_scan(t2, key, value, true).0,
            commented_scan(t2, key, value, true).1,
        ),
{
    let t = seq!['\n'] + t2;
    assert(!starts_with(t, comment_mark())) by {
        if starts_with(t, comment_mark()) {
            assert(t.subrange(0, 2)[0] == t[0]);
        }
    }
    assert(t.drop_first() =~= t2);
}

/// At the start of a line, the commented pass turns the line into its
/// `commented_piece` and goes on after it.
proof fn lemma_commented_line(p: Seq<char>, rest: Seq<char>, key: Seq<char>, value: Seq<char>)
    requires
        clean_key(key),
        !p.contains('\n'),
        at_line_end(rest),
        rest.len() > 0 ==> undefined_in(rest.drop_first(), key),
    ensures
        commented_scan(p + rest, key, value, true) == (
            commented_piece(p, key, value) + commented_scan(rest, key, value, false).0,
            (commented_match(p, key) is Some) || commented_scan(rest, key, value, false).1,
        ),
{
    let t = p + rest;
    lemma_commented_match_line(p, rest, key);
    if t.len() == 0 {
        assert(p.len() == 0 && rest.len() == 0);
        assert(!starts_with(p, comment_mark()));
    } else if commented_match(p, key) is Some {
        assert(starts_with(p, comment_mark()));
        assert(t.skip(p.len() as int) =~= rest);
    } else if p.len() == 0 {
        assert(t =~= rest);
        assert(rest[0] == '\n');
        assert(commented_piece(p, key, value) + commented_scan(rest, key, value, false).0
            =~= commented_scan(rest, key, value, false).0);
    } else {
        assert(t[0] == p[0]);
        assert(p[0] != '\n');
        assert(t.drop_first() =~= p.drop_first() + rest);
        assert(!p.drop_first().contains('\n')) by {
            if p.drop_first().contains('\n') {
                let j = choose|j: int| 0 <= j < p.drop_first().len() && p.drop_first()[j] == '\n';
                assert(p[j + 1] == '\n');
            }
        }
        lemma_commented_inside(p.drop_first(), rest, key, value);
        assert(seq![p[0]] + (p.drop_first() + commented_scan(rest, key, value, false).0) =~= p
            + commented_scan(rest, key, value, false).0);
    }
}

/// The commented pass over a whole text in which no line defines the key:
/// each piece turned into its `commented_piece`; and whether any piece is a
/// commented-out `key,` line.
proof fn lemma_commented_scan_pieces(t: Seq<char>, key: Seq<char>, value: Seq<char>)
    requires
        clean_key(key),
        undefined_in(t, key),
    ensures
        commented_scan(t, key, value, true) == (
            join(split_by(t, '\n').map_values(|p: Seq<char>| commented_piece(p, key, value)), "\n"@),
            has_commented_piece(split_by(t, '\n'), key),
        ),
    decreases t.len(),
{
    reveal_strlit("\n");
    assert("\n"@ =~= seq!['\n']);
    lemma_find_char(t, '\n');
    let ps = split_by(t, '\n');
    let f = |p: Seq<char>| commented_piece(p, key, value);
    match find_char(t, '\n') {
        None => {
            assert(!t.contains('\n')) by {
                if t.contains('\n') {
                    let j = choose|j: int| 0 <= j < t.len() && t[j] == '\n';
                }
            }
            lemma_commented_line(t, Seq::empty(), key, value);
            assert(t + Seq::<char>::empty() =~= t);
            assert(ps == seq![t]);
            assert(ps.map_values(f) =~= seq![f(t)]);
            assert(commented_piece(t, key, value) + Seq::<char>::empty() =~= commented_piece(t, key, value));
            if commented_match(t, key) is Some {
                assert(commented_match(ps[0], key) is Some);
            }
        },
        Some(i) => {
            let p0 = t.take(i);
            let t2 = t.skip(i + 1);
            assert(!p0.contains('\n')) by {
                if p0.contains('\n') {
                    let j = choose|j: int| 0 <= j < p0.len() && p0[j] == '\n';
                    assert(t[j] == '\n');
                }
            }
            let ps2 = split_by(t2, '\n');
            lemma_split_by_len(t2, '\n');
            assert(ps =~= seq![p0] + ps2);
            assert(undefined_in(t2, key)) by {
                assert forall|k: int| 0 <= k < ps2.len() implies !#[trigger] defines_key(ps2[k], key) by {
                    assert(ps[k + 1] == ps2[k]);
                }
            }
            let rest = seq!['\n'] + t2;
            assert(t =~= p0 + rest);
            assert(rest.drop_first() =~= t2);
            lemma_commented_line(p0, rest, key, value);
            lemma_commented_after_lf(t2, key, value);
            lemma_commented_scan_pieces(t2, key, value);
            assert(ps.map_values(f) =~= seq![f(p0)] + ps2.map_values(f));
            lemma_join_front(f(p0), ps2.map_values(f), "\n"@);
            assert(commented_piece(p0, key, value) + (seq!['\n'] + join(ps2.map_values(f), "\n"@)) =~= f(p0)
                + "\n"@ + join(ps2.map_values(f), "\n"@));
            if has_commented_piece(ps, key) {
                let j = choose|j: int| 0 <= j < ps.len() && (commented_match(#[trigger] ps[j], key) is Some);
                if j > 0 {
                    assert(ps2[j - 1] == ps[j]);
                }
            }
            if has_commented_piece(ps2, key) {
                let j = choose|j: int| 0 <= j < ps2.len() && (commented_match(#[trigger] ps2[j], key) is Some);
                assert(ps[j + 1] == ps2[j]);
            }
            if commented_match(p0, key) is Some {
                assert(ps[0] == p0);
            }
        },
    }
}

/// Reviving every commented-out `key,` line as `key,value`, in a text where
/// no line defines the key: the key is set when one was revived, and the rest
/// stays.
proof fn lemma_commented_pieces(ps: Seq<Seq<char>>, key: Seq<char>, value: Seq<char>)
    requires
        clean_key(key),
        clean_value(value),
        forall|i: int| 0 <= i < ps.len() ==> !#[trigger] defines_key(ps[i], key),
    ensures
        entries_map(ps.map_values(|p: Seq<char>| commented_piece(p, key, value))) == (if has_commented_piece(ps, key) {
            entries_map(ps).insert(key, value)
        } else {
            entries_map(ps)
        }),
    decreases ps.len(),
{
    let f = |p: Seq<char>| commented_piece(p, key, value);
    if ps.len() == 0 {
        assert(ps.map_values(f).len() == 0);
    } else {
        let init = ps.drop_last();
        let l = ps.last();
        assert forall|i: int| 0 <= i < init.len() implies !#[trigger] defines_key(init[i], key) by {
            assert(init[i] == ps[i]);
        }
        lemma_commented_pieces(init, key, value);
        assert(ps.map_values(f).drop_last() =~= init.map_values(f));
        assert(ps.map_values(f).last() == f(l));
        let m = entries_map(init);
        if has_commented_piece(init, key) {
            let i = choose|i: int| 0 <= i < init.len() && (commented_match(#[trigger] init[i], key) is Some);
            assert(ps[i] == init[i]);
        }
        if has_commented_piece(ps, key) && commented_match(l, key) is None {
            let i = choose|i: int| 0 <= i < ps.len() && (commented_match(#[trigger] ps[i], key) is Some);
            assert(i < ps.len() - 1);
            assert(init[i] == ps[i]);
        }
        assert(!defines_key(ps[ps.len() - 1], key));
        if commented_match(l, key) is Some {
            assert(starts_with(l, comment_mark()));
            assert(comment_mark() + l.skip(2) =~= l);
            lemma_entry_of_comment(l.skip(2));
            lemma_entry_of_set_line(key, value);
            assert(m.insert(key, value).insert(key, value) =~= m.insert(key, value));
        } else {
            match line_entry(l) {
                Some(kv) => {
                    assert(kv.0 != key);
                    assert(m.insert(key, value).insert(kv.0, kv.1) =~= m.insert(kv.0, kv.1).insert(key, value));
                },
                None => {},
            }
        }
    }
}

/// The text the commented pass writes, read back piece by piece.
proof fn lemma_commented_text_pieces(t: Seq<char>, key: Seq<char>, value: Seq<char>)
    requires
        clean_key(key),
        !value.contains('\n'),
        undefined_in(t, key),
    ensures
        split_by(commented_scan(t, key, value, true).0, '\n') == split_by(t, '\n').map_values(
            |p: Seq<char>| commented_piece(p, key, value),
        ),
{
    let ps = split_by(t, '\n');
    let f = |p: Seq<char>| commented_piece(p, key, value);
    lemma_commented_scan_pieces(t, key, value);
    lemma_split_by_len(t, '\n');
    lemma_pieces_no_lf(t);
    lemma_key_comma(key);
    let qs = ps.map_values(f);
    assert forall|i: int| 0 <= i < qs.len() implies !(#[trigger] qs[i]).contains('\n') by {
        assert(qs[i] == commented_piece(ps[i], key, value));
        if commented_match(ps[i], key) is Some {
            let q = key.push(',') + value;
            if q.contains('\n') {
                let j = choose|j: int| 0 <= j < q.len() && q[j] == '\n';
                if j < key.len() + 1 {
                    assert(key.push(',')[j] == '\n');
                } else {
                    assert(value[j - key.len() - 1] == '\n');
                }
            }
        }
    }
    lemma_pieces_of_join(qs);
}

/// Regularity of the pieces carries over to the lines.
proof fn lemma_regular_lines(t: Seq<char>, key: Seq<char>)
    requires
        regular_for(split_by(t, '\n'), key),
    ensures
        regular_for(split_lines(t), key),
{
    let ps = split_by(t, '\n');
    lemma_split_by_len(t, '\n');
    lemma_split_lines_pieces(t);
    lemma_lines_shape(ps);
    let ls = split_lines(t);
    let kc = key.push(',');
    assert forall|i: int| 0 <= i < ls.len() && #[trigger] defines_key(ls[i], key) implies starts_with(ls[i], kc) by {
        lemma_key_strip_cr(ps[i], key);
        if i < ps.len() - 1 {
            assert(ls[i] == strip_cr(ps[i]));
            assert(defines_key(ps[i], key));
            assert(starts_with(ps[i], kc));
            let p = ps[i];
            if p.len() > 0 && p.last() == '\r' {
                if p.len() == kc.len() {
                    assert(p.subrange(0, kc.len() as int) =~= p);
                    assert(p.last() == kc.last());
                }
                assert(strip_cr(p).subrange(0, kc.len() as int) =~= p.subrange(0, kc.len() as int));
            }
        } else {
            assert(ls[i] == ps[i]);
            assert(defines_key(ps[i], key));
        }
    }
}

/// Dropping a whitespace character from the end keeps the pieces regular.
proof fn lemma_regular_drop_ws(x: Seq<char>, c: char, key: Seq<char>)
    requires
        is_ws(c),
        regular_for(split_by(x.push(c), '\n'), key),
    ensures
        regular_for(split_by(x, '\n'), key),
{
    let ps = split_by(x, '\n');
    let qs = split_by(x.push(c), '\n');
    let kc = key.push(',');
    lemma_split_by_len(x, '\n');
    lemma_push_pieces_shape(x, c);
    assert forall|i: int| 0 <= i < ps.len() && #[trigger] defines_key(ps[i], key) implies starts_with(ps[i], kc) by {
        if c == '\n' || i < ps.len() - 1 {
            assert(qs[i] == ps[i]);
            assert(defines_key(qs[i], key));
        } else {
            let last = ps[i];
            assert(qs[i] == last.push(c));
            lemma_key_push_ws(last, c, key);
            assert(defines_key(qs[i], key));
            assert(starts_with(last.push(c), kc));
            if last.len() < kc.len() {
                assert(last.push(c).subrange(0, kc.len() as int)[kc.len() - 1] == kc[kc.len() - 1]);
                assert(kc[kc.len() - 1] == ',');
                assert(last.push(c)[kc.len() - 1] == c);
                assert(!is_ws(','));
            } else {
                assert(last.subrange(0, kc.len() as int) =~= last.push(c).subrange(0, kc.len() as int));
            }
        }
    }
}

/// Trailing whitespace cut off keeps the pieces regular.
proof fn lemma_regular_trim_end(t: Seq<char>, key: Seq<char>)
    requires
        regular_for(split_by(t, '\n'), key),
    ensures
        regular_for(split_by(trim_end(t), '\n'), key),
    decreases t.len(),
{
    if t.len() > 0 && is_ws(t.last()) {
        assert(t.drop_last().push(t.last()) =~= t);
        lemma_regular_drop_ws(t.drop_last(), t.last(), key);
        lemma_regular_trim_end(t.drop_last(), key);
    }
}

/// The line `key,value` defines no other key.
proof fn lemma_set_line_defines(key: Seq<char>, value: Seq<char>, other: Seq<char>)
    requires
        clean_key(key),
        clean_value(value),
        other != key,
    ensures
        !defines_key(key.push(',') + value, other),
{
    lemma_entry_of_set_line(key, value);
}

/// Setting one key leaves every other key written as regularly as before:
/// where each line defining `other` started with `other,`, it still does.
pub proof fn law_set_keeps_regular(t: Seq<char>, key: Seq<char>, value: Seq<char>, other: Seq<char>)
    requires
        clean_key(key),
        clean_value(value),
        value.len() > 0,
        other != key,
        regular_for(split_lines(t), key),
        regular_for(split_lines(t), other),
    ensures
        regular_for(split_lines(set_value_text(t, key, value)), other),
{
    let ps = split_by(t, '\n');
    let out = set_value_text(t, key, value);
    let kc = key.push(',');
    lemma_regular_pieces(t, key);
    lemma_regular_pieces(t, other);
    lemma_descript_pieces(t);
    lemma_active_iff_set(ps, key);
    lemma_active_scan_pieces(t, key, false, value);
    lemma_set_line_defines(key, value, other);
    let qs = split_by(out, '\n');
    if has_active(ps, key) {
        lemma_active_text_pieces(t, key, false, value);
        assert forall|i: int| 0 <= i < qs.len() && #[trigger] defines_key(qs[i], other) implies starts_with(
            qs[i],
            other.push(','),
        ) by {
            assert(qs[i] == active_piece(ps[i], key, false, value));
            if starts_with(ps[i], kc) {
                assert(qs[i] == kc + value);
            } else {
                assert(qs[i] == ps[i]);
            }
        }
    } else if commented_scan(t, key, value, true).1 {
        lemma_entries_contains(ps, key);
        assert(undefined_in(t, key));
        lemma_commented_text_pieces(t, key, value);
        assert forall|i: int| 0 <= i < qs.len() && #[trigger] defines_key(qs[i], other) implies starts_with(
            qs[i],
            other.push(','),
        ) by {
            assert(qs[i] == commented_piece(ps[i], key, value));
            if commented_match(ps[i], key) is Some {
                assert(qs[i] == kc + value);
            } else {
                assert(qs[i] == ps[i]);
            }
        }
    } else {
        let a = trim_end(t);
        let l = kc + value;
        assert(!l.contains('\n')) by {
            if l.contains('\n') {
                let j = choose|j: int| 0 <= j < l.len() && l[j] == '\n';
                if j < key.len() {
                    assert(key[j] == '\n');
                } else if j > key.len() {
                    assert(value[j - key.len() - 1] == '\n');
                }
            }
        }
        assert(out =~= a + seq!['\n'] + l + seq!['\n']);
        lemma_append_line(a, l);
        lemma_regular_trim_end(t, other);
        let qa = split_by(a, '\n');
        lemma_entry_empty();
        assert forall|i: int| 0 <= i < qs.len() && #[trigger] defines_key(qs[i], other) implies starts_with(
            qs[i],
            other.push(','),
        ) by {
            if i < qa.len() {
                assert(qs[i] == qa[i]);
            } else if i == qa.len() {
                assert(qs[i] == l);
            } else {
                assert(qs[i] == Seq::<char>::empty());
            }
        }
    }
    lemma_regular_lines(out, other);
}

/// The text a colour is written with on channel `ch` (0, 1, 2 for r, g, b):
/// the channel's number, or `none` for no colour.
pub open spec fn channel_text(c: Option<Rgb>, ch: int) -> Seq<char> {
    match c {
        None => none_word(),
        Some(rgb) => int_numeral(channel_of(rgb, ch)),
    }
}

/// Channel `ch` of a colour (0, 1, 2 for r, g, b).
pub open spec fn channel_of(rgb: Rgb, ch: int) -> int {
    if ch == 0 {
        rgb.0 as int
    } else if ch == 1 {
        rgb.1 as int
    } else {
        rgb.2 as int
    }
}

/// The key `{prefix}.{c}`.
pub open spec fn channel_key(prefix: Seq<char>, c: char) -> Seq<char> {
    prefix + seq!['.', c]
}

/// A channel's text is a plain word of ASCII characters that lowering
/// leaves alone; a number's text does not read as `none` and reads back
/// as the number.
proof fn lemma_channel_text(c: Option<Rgb>, ch: int)
    ensures
        plain_word(channel_text(c, ch)),
        all_ascii(channel_text(c, ch)),
        ascii_lower(channel_text(c, ch)) == channel_text(c, ch),
        c is None ==> channel_text(c, ch) == none_word(),
        c is Some ==> channel_text(c, ch) != none_word(),
        c is Some ==> crate::num::parse_in_range(channel_text(c, ch), false, 0, 255) == Some(
            channel_of(c->0, ch),
        ),
{
    let v = channel_text(c, ch);
    match c {
        None => {
            assert(v == none_word());
        },
        Some(rgb) => {
            let n: int = channel_of(rgb, ch);
            lemma_nat_digits(n as nat);
            lemma_parse_numeral(n, false, 0, 255);
            assert(v == nat_digits(n as nat));
            assert(all_digits(v));
            assert(crate::num::is_digit(v[0]));
            assert(v[0] != 'n');
        },
    }
    assert(ascii_lower(v) =~= v);
}

/// Writing a colour and reading it back gives the colour: after
/// `set_color_text`, the text holds `{prefix}.r` with an ASCII value, and
/// reading the three channels, with that value lower-cased, gives `c`
/// (`get_color_from_descript` reads exactly this where the `.r` value is
/// ASCII).
///
/// This holds for channel keys as `law_set_then_read` takes them, each
/// written only as `key,…` at the start of a line.
pub proof fn law_color_read_back(t: Seq<char>, prefix: Seq<char>, c: Option<Rgb>)
    requires
        clean_key(channel_key(prefix, 'r')),
        clean_key(channel_key(prefix, 'g')),
        clean_key(channel_key(prefix, 'b')),
        regular_for(split_lines(t), channel_key(prefix, 'r')),
        regular_for(split_lines(t), channel_key(prefix, 'g')),
        regular_for(split_lines(t), channel_key(prefix, 'b')),
    ensures
        ({
            let m = descript_map(set_color_text(t, prefix, c));
            let kr = channel_key(prefix, 'r');
            &&& m.contains_key(kr)
            &&& all_ascii(m[kr])
            &&& color_read(m, prefix, ascii_lower(m[kr])) == c
        }),
{
    let kr = channel_key(prefix, 'r');
    let kg = channel_key(prefix, 'g');
    let kb = channel_key(prefix, 'b');
    let v0 = channel_text(c, 0);
    let v1 = channel_text(c, 1);
    let v2 = channel_text(c, 2);
    lemma_channel_text(c, 0);
    lemma_channel_text(c, 1);
    lemma_channel_text(c, 2);
    lemma_plain_word(v0);
    lemma_plain_word(v1);
    lemma_plain_word(v2);
    assert(kr != kg && kr != kb && kg != kb) by {
        assert(kr[kr.len() - 1] == 'r' && kg[kg.len() - 1] == 'g' && kb[kb.len() - 1] == 'b');
    }
    let t1 = set_value_text(t, kr, v0);
    let t2 = set_value_text(t1, kg, v1);
    let t3 = set_value_text(t2, kb, v2);
    assert(set_color_text(t, prefix, c) == t3);
    lemma_clean_trim_end(v0);
    lemma_clean_trim_end(v1);
    law_set_then_read(t, kr, v0);
    law_set_keeps_regular(t, kr, v0, kg);
    law_set_keeps_regular(t, kr, v0, kb);
    law_set_then_read(t1, kg, v1);
    law_set_keeps_clean_values(t1, kg, v1, kr);
    law_set_keeps_regular(t1, kg, v1, kb);
    law_set_then_read(t2, kb, v2);
    law_set_keeps_clean_values(t2, kb, v2, kr);
    law_set_keeps_clean_values(t2, kb, v2, kg);
    let m = descript_map(t3);
    assert(m.contains_key(kr) && m[kr] == v0 && m[kg] == v1 && m[kb] == v2);
    assert(m.contains_key(kg) && m.contains_key(kb));
    assert(map_u8(m, kr) == (match c { Some(rgb) => Some(rgb.0), None => map_u8(m, kr) }));
    assert(map_u8(m, kg) == (match c { Some(rgb) => Some(rgb.1), None => map_u8(m, kg) }));
    assert(map_u8(m, kb) == (match c { Some(rgb) => Some(rgb.2), None => map_u8(m, kb) }));
}

/// A value fit to be set has no trailing whitespace.
pub(crate) proof fn lemma_clean_trim_end(v: Seq<char>)
    requires
        clean_value(v),
    ensures
        trim_end(v) == v,
{
    if v.len() > 0 {
        lemma_trimmed(v);
    }
}

/// The spelling of an alias group that `set_descript_value_aliased` does
/// not write to (see `alias_target`).
pub open spec fn alias_other(t: Seq<char>, g: Seq<Seq<char>>) -> Seq<char> {
    if alias_target(t, g) == g[0] {
        g[1]
    } else {
        g[0]
    }
}

/// The spellings of an alias group: two different keys fit to be set, each
/// in that same group.
proof fn lemma_alias_group(key: Seq<char>)
    requires
        alias_group_of(key) is Some,
    ensures
        ({
            let g = alias_group_of(key)->0;
            &&& g.len() == 2
            &&& clean_key(g[0]) && clean_key(g[1])
            &&& g[0] != g[1]
            &&& alias_group_of(g[0]) == Some(g)
            &&& alias_group_of(g[1]) == Some(g)
        }),
{
    let g = alias_group_of(key)->0;
    lemma_plain_word(k_number_xr());
    lemma_plain_word(k_number_x());
    lemma_plain_word(k_number_y());
    lemma_plain_word(k_number_yb());
    assert(k_number_xr() != k_number_x() && k_number_y() != k_number_yb()) by {
        assert(k_number_xr().len() != k_number_x().len());
        assert(k_number_y().len() != k_number_yb().len());
    }
    assert(k_number_xr() != k_number_y() && k_number_xr() != k_number_yb()) by {
        assert(k_number_xr()[7] != k_number_y()[7]);
        assert(k_number_xr()[7] != k_number_yb()[7]);
    }
    assert(k_number_x() != k_number_y() && k_number_x() != k_number_yb()) by {
        assert(k_number_x()[7] != k_number_y()[7]);
        assert(k_number_x()[7] != k_number_yb()[7]);
    }
    assert(alias_groups()[0] == seq![k_number_xr(), k_number_x()]);
    assert(alias_groups()[1] == seq![k_number_y(), k_number_yb()]);
}

/// Setting a key of an alias group (`number.xr` / `number.x`, `number.y` /
/// `number.yb`) with `set_descript_value_aliased`, then reading the text
/// back: the spelling it wrote to holds the value, the other spelling is
/// gone, and reading either spelling of the group (with its fallback to the
/// other) gives the value. Every other key keeps its value where no line is
/// appended, or where the cut of trailing whitespace that comes before an
/// appended line changes no entry (`append_keeps_entries`).
///
/// This holds for a non-empty value without line feed or surrounding
/// whitespace, where the text writes each spelling only as `key,…` at the
/// start of a line.
pub proof fn law_aliased_set_then_read(t: Seq<char>, key: Seq<char>, value: Seq<char>)
    requires
        alias_group_of(key) is Some,
        clean_value(value),
        value.len() > 0,
        regular_for(split_lines(t), alias_group_of(key)->0[0]),
        regular_for(split_lines(t), alias_group_of(key)->0[1]),
    ensures
        ({
            let g = alias_group_of(key)->0;
            let m = descript_map(t);
            let q = descript_map(set_aliased_text(t, key, value));
            let tg = alias_target(t, g);
            let ot = alias_other(t, g);
            &&& append_keeps_entries(t, tg, value) ==> q == (if m.contains_key(ot) {
                m.insert(tg, value).remove(ot)
            } else {
                m.insert(tg, value)
            })
            &&& q.contains_key(tg) && !q.contains_key(ot)
            &&& aliased_get(q, g[0]) == Some(value)
            &&& aliased_get(q, g[1]) == Some(value)
        }),
{
    let g = alias_group_of(key)->0;
    lemma_alias_group(key);
    let m = descript_map(t);
    let tg = alias_target(t, g);
    let ot = alias_other(t, g);
    assert(tg == g[0] || tg == g[1]);
    assert(tg != ot && (ot == g[0] || ot == g[1]));
    let t1 = set_value_text(t, tg, value);
    law_set_then_read(t, tg, value);
    if m.contains_key(ot) {
        law_set_keeps_regular(t, tg, value, ot);
        law_clear_then_read(t1, ot);
        assert(set_aliased_text(t, key, value) == set_value_text(t1, ot, Seq::empty()));
    } else {
        assert(set_aliased_text(t, key, value) == t1);
        lemma_trim_end_no_new_key(t, ot);
    }
    let q = descript_map(set_aliased_text(t, key, value));
    assert(q.contains_key(tg) && q[tg] == value && !q.contains_key(ot));
}

/// Clearing one key leaves every other key written as regularly as before.
proof fn lemma_clear_keeps_regular(t: Seq<char>, key: Seq<char>, other: Seq<char>)
    requires
        clean_key(key),
        other != key,
        regular_for(split_lines(t), other),
    ensures
        regular_for(split_lines(set_value_text(t, key, Seq::empty())), other),
{
    let e = Seq::<char>::empty();
    let ps = split_by(t, '\n');
    let out = set_value_text(t, key, e);
    let kc = key.push(',');
    lemma_regular_pieces(t, other);
    lemma_active_text_pieces(t, key, true, e);
    let qs = split_by(out, '\n');
    assert forall|i: int| 0 <= i < qs.len() && #[trigger] defines_key(qs[i], other) implies starts_with(
        qs[i],
        other.push(','),
    ) by {
        assert(qs[i] == active_piece(ps[i], key, true, e));
        if starts_with(ps[i], kc) {
            assert(qs[i] == comment_mark() + ps[i]);
            lemma_entry_of_comment(ps[i]);
        } else {
            assert(qs[i] == ps[i]);
        }
    }
    lemma_regular_lines(out, other);
}

/// Clearing a key of an alias group with `set_descript_value_aliased`, then
/// reading the text back: neither spelling of the group is set, and every
/// other key keeps its value.
///
/// This holds where the text writes each spelling only as `key,…` at the
/// start of a line.
pub proof fn law_aliased_clear_then_read(t: Seq<char>, key: Seq<char>)
    requires
        alias_group_of(key) is Some,
        regular_for(split_lines(t), alias_group_of(key)->0[0]),
        regular_for(split_lines(t), alias_group_of(key)->0[1]),
    ensures
        ({
            let g = alias_group_of(key)->0;
            descript_map(set_aliased_text(t, key, Seq::empty())) == descript_map(t).remove(g[0]).remove(g[1])
        }),
{
    let g = alias_group_of(key)->0;
    let e = Seq::<char>::empty();
    lemma_alias_group(key);
    let t1 = set_value_text(t, g[0], e);
    law_clear_then_read(t, g[0]);
    lemma_clear_keeps_regular(t, g[0], g[1]);
    law_clear_then_read(t1, g[1]);
    assert(set_aliased_text(t, key, e) == set_value_text(t1, g[1], e));
}

/// A decimal numeral is fit to be set as a value.
pub(crate) proof fn lemma_numeral_clean(n: int)
    ensures
        clean_value(int_numeral(n)),
        int_numeral(n).len() > 0,
{
    let v = int_numeral(n);
    lemma_parse_numeral(n, true, n, n);
    let d = if n < 0 {
        nat_digits((-n) as nat)
    } else {
        nat_digits(n as nat)
    };
    lemma_nat_digits(if n < 0 {
        (-n) as nat
    } else {
        n as nat
    });
    assert(forall|i: int| 0 <= i < v.len() ==> (#[trigger] v[i] == '-' || crate::num::is_digit(v[i]))) by {
        assert forall|i: int| 0 <= i < v.len() implies (#[trigger] v[i] == '-' || crate::num::is_digit(v[i])) by {
            if n < 0 {
                assert(v == seq!['-'] + d);
                if i > 0 {
                    assert(v[i] == d[i - 1]);
                }
            } else {
                assert(v == d);
            }
        }
    }
    assert(!v.contains('\n')) by {
        if v.contains('\n') {
            let j = choose|j: int| 0 <= j < v.len() && v[j] == '\n';
            assert(v[j] == '-' || crate::num::is_digit(v[j]));
        }
    }
    assert(!is_ws(v[0])) by {
        assert(v[0] == '-' || crate::num::is_digit(v[0]));
    }
    assert(!is_ws(v[v.len() - 1])) by {
        assert(v[v.len() - 1] == '-' || crate::num::is_digit(v[v.len() - 1]));
    }
    lemma_trim_start(v);
    lemma_trim_end_prefix(v, v.len() as int);
    lemma_trim_end_len(v);
    assert(v.take(v.len() as int) =~= v);
}

/// A key or value made of ASCII lower-case letters, digits, `_` and `.` only.
pub open spec fn plain_word(s: Seq<char>) -> bool {
    s.len() > 0 && forall|i: int| 0 <= i < s.len() ==> ('a' <= #[trigger] s[i] <= 'z' || '0' <= s[i] <= '9' || s[i] == '_' || s[i] == '.')
}

/// A plain word is fit to be set as a key, and as a value.
pub proof fn lemma_plain_word(s: Seq<char>)
    requires
        plain_word(s),
    ensures
        clean_key(s),
        clean_value(s),
{
    assert(!s.contains(',')) by {
        if s.contains(',') {
            let j = choose|j: int| 0 <= j < s.len() && s[j] == ',';
        }
    }
    assert(!s.contains('\n')) by {
        if s.contains('\n') {
            let j = choose|j: int| 0 <= j < s.len() && s[j] == '\n';
        }
    }
    assert(!is_ws(s[0]));
    assert(!is_ws(s[s.len() - 1]));
    lemma_trim_start(s);
    lemma_trim_end_prefix(s, s.len() as int);
    lemma_trim_end_len(s);
    assert(s.take(s.len() as int) =~= s);
    assert(!starts_with(s, comment_mark())) by {
        if starts_with(s, comment_mark()) {
            assert(s.subrange(0, 2)[0] == s[0]);
        }
    }
}

} // verus!
