//! `descript.txt` / `install.txt`: reading `key,value` lines and editing them.
use vstd::prelude::*;
use vstd::hash_map::StringHashMap;
use crate::color::Rgb;
use crate::num::{int_numeral, int_to_string, parse_i32, parse_in_range, parse_u8};
use crate::text::{
    all_ascii, ascii_lower, push_str, str_lowercase, to_lowercase,
    chars_of, is_ws_char, join, lemma_find_char, push_char, push_range, starts_with_at, is_ws, trim_end, trim_end_bound, find_char, find_char_in, split_lines, starts_with, string_of, trim, trim_bounds,
    trim_start, trim_start_bound,
};

verus! {

/// `//`, which opens a comment line.
pub open spec fn comment_mark() -> Seq<char> {
    seq!['/', '/']
}

/// The `(key, value)` a single line defines: blank lines, comment lines
/// (`//` after leading whitespace) and lines without a comma define
/// nothing; the key, before the first comma, is trimmed; the value, after
/// it, loses only its leading whitespace (trailing whitespace can matter).
pub open spec fn line_entry(line: Seq<char>) -> Option<(Seq<char>, Seq<char>)> {
    let t = trim(line);
    if t.len() == 0 || starts_with(t, comment_mark()) {
        None
    } else {
        match find_char(line, ',') {
            None => None,
            Some(p) => Some((trim(line.subrange(0, p)), trim_start(line.subrange(p + 1, line.len() as int)))),
        }
    }
}

/// The map that a sequence of lines defines; a later line overrides an earlier one.
pub open spec fn entries_map(ls: Seq<Seq<char>>) -> Map<Seq<char>, Seq<char>>
    decreases ls.len(),
{
    if ls.len() == 0 {
        Map::empty()
    } else {
        let m = entries_map(ls.drop_last());
        match line_entry(ls.last()) {
            Some(kv) => m.insert(kv.0, kv.1),
            None => m,
        }
    }
}

/// The key/value map of a descript text.
pub open spec fn descript_map(t: Seq<char>) -> Map<Seq<char>, Seq<char>> {
    entries_map(split_lines(t))
}

/// `m` holds, as `String`s, exactly the entries of `spec`.
pub open spec fn models(m: Map<Seq<char>, String>, spec: Map<Seq<char>, Seq<char>>) -> bool {
    &&& m.dom() == spec.dom()
    &&& forall|k: Seq<char>| #[trigger] m.contains_key(k) ==> m[k]@ == spec[k]
}

/// Bounds of the key and value that the line `v[a..b]` defines.
fn line_entry_bounds(v: &Vec<char>, a: usize, b: usize) -> (r: Option<(usize, usize, usize, usize)>)
    requires
        a <= b <= v.len(),
    ensures
        match r {
            Some((ka, kb, va, vb)) => {
                &&& a <= ka <= kb <= b && a <= va <= vb <= b
                &&& line_entry(v@.subrange(a as int, b as int)) == Some(
                    (v@.subrange(ka as int, kb as int), v@.subrange(va as int, vb as int)),
                )
            },
            None => line_entry(v@.subrange(a as int, b as int)) is None,
        },
{
    let (s, e) = trim_bounds(v, a, b);
    let ghost t = v@.subrange(s as int, e as int);
    if s == e {
        return None;
    }
    if e - s >= 2 && v[s] == '/' && v[s + 1] == '/' {
        assert(t.subrange(0, 2) =~= comment_mark());
        return None;
    }
    assert(!starts_with(t, comment_mark())) by {
        if starts_with(t, comment_mark()) {
            assert(t.subrange(0, 2)[0] == '/' && t.subrange(0, 2)[1] == '/');
        }
    }
    let ghost l = v@.subrange(a as int, b as int);
    match find_char_in(v, a, b, ',') {
        None => None,
        Some(p) => {
            let (ks, ke) = trim_bounds(v, a, p);
            let vs = trim_start_bound(v, p + 1, b);
            assert(l.subrange(0, p - a) =~= v@.subrange(a as int, p as int));
            assert(l.subrange(p - a + 1, l.len() as int) =~= v@.subrange(p + 1, b as int));
            Some((ks, ke, vs, b))
        },
    }
}

/// Splits off the first line of `v[a..]`: its bounds and where the rest starts.
pub fn next_line(v: &Vec<char>, a: usize) -> (r: (usize, usize, usize))
    requires
        a < v.len(),
    ensures
        a <= r.0 <= r.1 <= r.2 <= v.len(),
        r.0 == a,
        a < r.2,
        split_lines(v@.subrange(a as int, v.len() as int)) == seq![
            v@.subrange(r.0 as int, r.1 as int),
        ] + split_lines(v@.subrange(r.2 as int, v.len() as int)),
{
    let ghost s = v@.subrange(a as int, v.len() as int);
    match find_char_in(v, a, v.len(), '\n') {
        None => {
            assert(v@.subrange(v.len() as int, v.len() as int).len() == 0);
            assert(split_lines(v@.subrange(v.len() as int, v.len() as int)) =~= Seq::<
                Seq<char>,
            >::empty());
            assert(seq![s] + Seq::<Seq<char>>::empty() =~= seq![s]);
            (a, v.len(), v.len())
        },
        Some(i) => {
            assert(s.subrange(0, i - a) =~= v@.subrange(a as int, i as int));
            assert(s.subrange(i - a + 1, s.len() as int) =~= v@.subrange(i + 1, v.len() as int));
            let e = if i > a && v[i - 1] == '\r' {
                assert(v@.subrange(a as int, i as int).drop_last() =~= v@.subrange(
                    a as int,
                    i - 1,
                ));
                i - 1
            } else {
                i
            };
            (a, e, i + 1)
        },
    }
}

/// Reads a descript text into a key → value map (see `line_entry`). Comment
/// lines (`//`), blank lines and lines without a comma are skipped; the key
/// is trimmed, the value loses only its leading whitespace; for a key
/// written twice the later line wins.
pub fn parse_descript(text: &str) -> (m: StringHashMap<String>)
    ensures
        models(m@, descript_map(text@)),
{
    let v = chars_of(text);
    let mut m: StringHashMap<String> = StringHashMap::new();
    let mut pos: usize = 0;
    let ghost mut done: Seq<Seq<char>> = Seq::empty();
    assert(v@.subrange(0, v.len() as int) =~= v@);
    while pos < v.len()
        invariant
            pos <= v.len(),
            v@ == text@,
            split_lines(v@) == done + split_lines(v@.subrange(pos as int, v.len() as int)),
            models(m@, entries_map(done)),
        decreases v.len() - pos,
    {
        let (ls, le, next) = next_line(&v, pos);
        let ghost line = v@.subrange(ls as int, le as int);
        proof {
            assert(done + split_lines(v@.subrange(pos as int, v.len() as int)) =~= done.push(line)
                + split_lines(v@.subrange(next as int, v.len() as int)));
            assert(done.push(line).drop_last() =~= done);
        }
        match line_entry_bounds(&v, ls, le) {
            Some((ka, kb, va, vb)) => {
                let k = string_of(&v, ka, kb);
                let val = string_of(&v, va, vb);
                m.insert(k, val);
            },
            None => {},
        }
        proof {
            done = done.push(line);
        }
        pos = next;
    }
    assert(v@.subrange(v.len() as int, v.len() as int).len() == 0);
    assert(done + Seq::<Seq<char>>::empty() =~= done);
    m
}

/// Length of the rest of the current line: up to the next `\n` or the end.
pub open spec fn line_len(t: Seq<char>) -> int {
    match find_char(t, '\n') {
        Some(i) => i,
        None => t.len() as int,
    }
}

/// One pass of `^KEY,(.*)$` (multi-line mode) over `t`, replacing each match:
/// with `KEY,value`, or with `//KEY,<captured>` when `blank`. Also reports
/// whether anything matched. `at_start`: `t` begins at the start of a line.
pub open spec fn active_scan(
    t: Seq<char>,
    key: Seq<char>,
    blank: bool,
    value: Seq<char>,
    at_start: bool,
) -> (Seq<char>, bool)
    decreases t.len(),
{
    if t.len() == 0 {
        (Seq::empty(), false)
    } else if at_start && starts_with(t, key.push(',')) {
        let rest = t.skip(key.len() + 1int);
        let n = line_len(rest);
        let repl = if blank {
            comment_mark() + key.push(',') + rest.take(n)
        } else {
            key.push(',') + value
        };
        proof {
            lemma_find_char(rest, '\n');
        }
        let r = active_scan(rest.skip(n), key, blank, value, false);
        (repl + r.0, true)
    } else {
        let r = active_scan(t.drop_first(), key, blank, value, t[0] == '\n');
        (seq![t[0]] + r.0, r.1)
    }
}

/// Number of leading whitespace characters.
pub open spec fn ws_run(t: Seq<char>) -> nat
    decreases t.len(),
{
    if t.len() > 0 && is_ws(t[0]) {
        1 + ws_run(t.drop_first())
    } else {
        0
    }
}

/// The largest `j <= top` at which `pat` occurs in `r`.
pub open spec fn last_at(r: Seq<char>, pat: Seq<char>, top: nat) -> Option<nat>
    decreases top,
{
    if top <= r.len() && starts_with(r.skip(top as int), pat) {
        Some(top)
    } else if top == 0 {
        None
    } else {
        last_at(r, pat, (top - 1) as nat)
    }
}

/// Length of a match of `^//\s*KEY,(.*)$` at the start of `t`, if one starts
/// there. The greedy `\s*` takes the longest whitespace run after which
/// `KEY,` follows.
pub open spec fn commented_match(t: Seq<char>, key: Seq<char>) -> Option<int> {
    if starts_with(t, comment_mark()) {
        let r = t.skip(2);
        match last_at(r, key.push(','), ws_run(r)) {
            Some(j) => {
                let rest = r.skip(j + key.len() + 1int);
                Some(2 + j + key.len() + 1 + line_len(rest))
            },
            None => None,
        }
    } else {
        None
    }
}

/// One pass of `^//\s*KEY,(.*)$` over `t`, replacing each match with
/// `KEY,value`; also reports whether anything matched.
pub open spec fn commented_scan(t: Seq<char>, key: Seq<char>, value: Seq<char>, at_start: bool) -> (
    Seq<char>,
    bool,
)
    decreases t.len(),
{
    if t.len() == 0 {
        (Seq::empty(), false)
    } else {
        match commented_match(t, key) {
            Some(n) if at_start && 0 < n <= t.len() => {
                let r = commented_scan(t.skip(n), key, value, false);
                (key.push(',') + value + r.0, true)
            },
            _ => {
                let r = commented_scan(t.drop_first(), key, value, t[0] == '\n');
                (seq![t[0]] + r.0, r.1)
            },
        }
    }
}

/// What `set_descript_value` makes of `t`.
pub open spec fn set_value_text(t: Seq<char>, key: Seq<char>, value: Seq<char>) -> Seq<char> {
    if value.len() == 0 {
        active_scan(t, key, true, value, true).0
    } else if active_scan(t, key, false, value, true).1 {
        active_scan(t, key, false, value, true).0
    } else if commented_scan(t, key, value, true).1 {
        commented_scan(t, key, value, true).0
    } else {
        trim_end(t) + seq!['\n'] + key.push(',') + value + seq!['\n']
    }
}

/// `key` followed by a comma.
fn key_comma(key: &Vec<char>) -> (r: Vec<char>)
    ensures
        r@ == key@.push(','),
{
    let mut r = key.clone();
    r.push(',');
    r
}

/// Position of the next `\n` at or after `a`, or the end of `v`.
fn line_end(v: &Vec<char>, a: usize) -> (e: usize)
    requires
        a <= v.len(),
    ensures
        a <= e <= v.len(),
        e - a == line_len(v@.skip(a as int)),
{
    match find_char_in(v, a, v.len(), '\n') {
        Some(i) => i,
        None => v.len(),
    }
}

/// Runs `active_scan` over the whole of `v`.
fn scan_active(v: &Vec<char>, key: &Vec<char>, blank: bool, value: &Vec<char>) -> (r: (
    String,
    bool,
))
    ensures
        (r.0@, r.1) == active_scan(v@, key@, blank, value@, true),
{
    let kp = key_comma(key);
    let mut out = String::new();
    let mut found = false;
    let mut i: usize = 0;
    let mut at_start = true;
    assert(v@.skip(0) =~= v@);
    while i < v.len()
        invariant
            i <= v.len(),
            kp@ == key@.push(','),
            active_scan(v@, key@, blank, value@, true) == ({
                let r = active_scan(v@.skip(i as int), key@, blank, value@, at_start);
                (out@ + r.0, found || r.1)
            }),
        decreases v.len() - i,
    {
        let ghost t = v@.skip(i as int);
        let ghost old_out = out@;
        if at_start && starts_with_at(v, i, v.len(), &kp) {
            let rs = i + kp.len();
            let e = line_end(v, rs);
            let ghost rest = t.skip(key@.len() + 1int);
            assert(rest =~= v@.skip(rs as int));
            assert(rest.take(e - rs) =~= v@.subrange(rs as int, e as int));
            assert(rest.skip(e - rs) =~= v@.skip(e as int));
            if blank {
                push_char(&mut out, '/');
                push_char(&mut out, '/');
                push_range(&mut out, &kp, 0, kp.len());
                push_range(&mut out, v, rs, e);
                assert(kp@.subrange(0, kp@.len() as int) =~= kp@);
                assert(out@ =~= old_out + (comment_mark() + key@.push(',') + rest.take(e - rs)));
            } else {
                push_range(&mut out, &kp, 0, kp.len());
                push_range(&mut out, value, 0, value.len());
                assert(kp@.subrange(0, kp@.len() as int) =~= kp@);
                assert(value@.subrange(0, value@.len() as int) =~= value@);
                assert(out@ =~= old_out + (key@.push(',') + value@));
            }
            found = true;
            at_start = false;
            i = e;
        } else {
            let c = v[i];
            push_char(&mut out, c);
            assert(t.drop_first() =~= v@.skip(i + 1));
            at_start = c == '\n';
            i = i + 1;
        }
    }
    assert(v@.skip(v.len() as int).len() == 0);
    out = out;
    (out, found)
}

/// Where a match of `^//\s*KEY,(.*)$` starting at `i` ends, if one starts there.
fn commented_match_at(v: &Vec<char>, i: usize, key: &Vec<char>, kp: &Vec<char>) -> (r: Option<usize>)
    requires
        i <= v.len(),
        kp@ == key@.push(','),
    ensures
        match commented_match(v@.skip(i as int), key@) {
            Some(n) => 0 < n && i + n <= v.len() && r == Some((i + n) as usize),
            None => r is None,
        },
{
    let ghost t = v@.skip(i as int);
    if !(v.len() - i >= 2 && v[i] == '/' && v[i + 1] == '/') {
        assert(!starts_with(t, comment_mark())) by {
            if starts_with(t, comment_mark()) {
                assert(t.subrange(0, 2)[0] == '/' && t.subrange(0, 2)[1] == '/');
            }
        }
        return None;
    }
    assert(t.subrange(0, 2) =~= comment_mark());
    let a = i + 2;
    let ghost r = t.skip(2);
    assert(r =~= v@.skip(a as int));
    // longest whitespace run after `//`
    let mut w: usize = 0;
    while a + w < v.len() && is_ws_char(v[a + w])
        invariant
            a <= v.len(),
            a + w <= v.len(),
            r == v@.skip(a as int),
            ws_run(r) == w + ws_run(v@.skip(a + w)),
        decreases v.len() - a - w,
    {
        assert(v@.skip(a + w).drop_first() =~= v@.skip(a + w + 1));
        w = w + 1;
    }
    assert(ws_run(v@.skip(a + w)) == 0);
    // the greedy `\s*` backs off until `KEY,` follows
    let mut j: usize = w;
    loop
        invariant
            a <= v.len(),
            a + j <= v.len(),
            a == i + 2,
            kp@ == key@.push(','),
            t == v@.skip(i as int),
            starts_with(t, comment_mark()),
            r == t.skip(2),
            r == v@.skip(a as int),
            last_at(r, key@.push(','), ws_run(r)) == last_at(r, key@.push(','), j as nat),
        decreases j,
    {
        assert(r.skip(j as int) =~= v@.skip(a + j));
        if starts_with_at(v, a + j, v.len(), kp) {
            assert(kp@.len() <= v@.len() - (a + j));
            assert(v@.skip(a + j) == v@.subrange(a + j, v@.len() as int));
            assert(starts_with(r.skip(j as int), key@.push(',')));
            assert(j <= r.len());
            let rs = a + j + kp.len();
            let e = line_end(v, rs);
            assert(r.skip(j as int + key@.len() + 1) =~= v@.skip(rs as int));
            assert(last_at(r, key@.push(','), j as nat) == Some(j as nat));
            assert(commented_match(t, key@) == Some(e - i));
            return Some(e);
        }
        if j == 0 {
            return None;
        }
        j = j - 1;
    }
}

/// Runs `commented_scan` over the whole of `v`.
fn scan_commented(v: &Vec<char>, key: &Vec<char>, value: &Vec<char>) -> (r: (String, bool))
    ensures
        (r.0@, r.1) == commented_scan(v@, key@, value@, true),
{
    let kp = key_comma(key);
    let mut out = String::new();
    let mut found = false;
    let mut i: usize = 0;
    let mut at_start = true;
    assert(v@.skip(0) =~= v@);
    while i < v.len()
        invariant
            i <= v.len(),
            kp@ == key@.push(','),
            commented_scan(v@, key@, value@, true) == ({
                let r = commented_scan(v@.skip(i as int), key@, value@, at_start);
                (out@ + r.0, found || r.1)
            }),
        decreases v.len() - i,
    {
        let ghost t = v@.skip(i as int);
        let ghost old_out = out@;
        let m0 = commented_match_at(v, i, key, &kp);
        let m = if at_start {
            m0
        } else {
            None
        };
        match m {
            Some(e) => {
                let ghost n = commented_match(t, key@)->0;
                assert(e == i + n);
                assert(t.skip(n) =~= v@.skip(e as int));
                push_range(&mut out, &kp, 0, kp.len());
                push_range(&mut out, value, 0, value.len());
                assert(kp@.subrange(0, kp@.len() as int) =~= kp@);
                assert(value@.subrange(0, value@.len() as int) =~= value@);
                assert(out@ =~= old_out + (key@.push(',') + value@));
                found = true;
                at_start = false;
                i = e;
            },
            None => {
                let c = v[i];
                push_char(&mut out, c);
                assert(t.drop_first() =~= v@.skip(i + 1));
                at_start = c == '\n';
                i = i + 1;
            },
        }
    }
    assert(v@.skip(v.len() as int).len() == 0);
    (out, found)
}

/// Sets `key,value` in a descript text: every line that starts with `key,`
/// gets the new value. With no such line, a commented-out `//key,...` line
/// (spaces allowed after `//`) is revived; failing that, `key,value` is added
/// at the end. An empty `value` comments the `key,` lines out instead
/// (`//key,old`) and leaves a text without them as it is.
pub fn set_descript_value(text: &str, key: &str, value: &str) -> (r: String)
    ensures
        r@ == set_value_text(text@, key@, value@),
{
    let v = chars_of(text);
    let k = chars_of(key);
    let val = chars_of(value);
    if val.len() == 0 {
        let (out, _found) = scan_active(&v, &k, true, &val);
        return out;
    }
    let (out, found) = scan_active(&v, &k, false, &val);
    if found {
        return out;
    }
    let (out2, found2) = scan_commented(&v, &k, &val);
    if found2 {
        return out2;
    }
    let e = trim_end_bound(&v, 0, v.len());
    let mut r = string_of(&v, 0, e);
    push_char(&mut r, '\n');
    push_range(&mut r, &k, 0, k.len());
    push_char(&mut r, ',');
    push_range(&mut r, &val, 0, val.len());
    push_char(&mut r, '\n');
    proof {
        assert(v@.subrange(0, v@.len() as int) =~= v@);
        assert(k@.subrange(0, k@.len() as int) =~= k@);
        assert(val@.subrange(0, val@.len() as int) =~= val@);
        assert(r@ =~= trim_end(v@) + seq!['\n'] + k@.push(',') + val@ + seq!['\n']);
    }
    r
}

/// The views of a map's `String` values.
pub open spec fn strs(m: Map<Seq<char>, String>) -> Map<Seq<char>, Seq<char>> {
    m.map_values(|s: String| s@)
}

/// `models` is the same as equality of the value views.
pub proof fn lemma_models_strs(m: Map<Seq<char>, String>, spec: Map<Seq<char>, Seq<char>>)
    requires
        models(m, spec),
    ensures
        strs(m) == spec,
{
    assert(strs(m) =~= spec);
}

/// `none`, the word that switches a colour off.
pub open spec fn none_word() -> Seq<char> {
    seq!['n', 'o', 'n', 'e']
}

/// `prefix` followed by a suffix.
pub open spec fn with_suffix(prefix: Seq<char>, suffix: Seq<char>) -> Seq<char> {
    prefix + suffix
}

/// The `u8` a map value reads as, when the key is present.
pub open spec fn map_u8(m: Map<Seq<char>, Seq<char>>, k: Seq<char>) -> Option<u8> {
    if m.contains_key(k) {
        match crate::num::parse_in_range(m[k], false, 0, 255) {
            Some(x) => Some(x as u8),
            None => None,
        }
    } else {
        None
    }
}

/// The colour that the keys `{prefix}.r`, `.g`, `.b` of `m` give: none
/// when `.r` is absent or lower-cases to `none`, or when a channel is not a `u8`.
pub open spec fn color_from_map(m: Map<Seq<char>, Seq<char>>, prefix: Seq<char>) -> Option<Rgb> {
    color_read(m, prefix, str_lowercase(m[prefix + seq!['.', 'r']]))
}

/// The colour under `{prefix}.r`, `.g`, `.b`, with `lowered_r` the `.r`
/// value lower-cased: none where `.r` is absent or lowers to `none`, or a
/// channel is missing or not a number 0–255.
pub open spec fn color_read(m: Map<Seq<char>, Seq<char>>, prefix: Seq<char>, lowered_r: Seq<char>) -> Option<Rgb> {
    let kr = prefix + seq!['.', 'r'];
    let kg = prefix + seq!['.', 'g'];
    let kb = prefix + seq!['.', 'b'];
    if !m.contains_key(kr) || lowered_r == none_word() {
        None
    } else {
        match (map_u8(m, kr), map_u8(m, kg), map_u8(m, kb)) {
            (Some(r), Some(g), Some(b)) => Some(Rgb(r, g, b)),
            _ => None,
        }
    }
}

/// `prefix` with a two-character suffix `.` `c`.
fn dotted(prefix: &str, c: char) -> (s: String)
    ensures
        s@ == prefix@ + seq!['.', c],
{
    let mut s = String::new();
    push_str(&mut s, prefix);
    push_char(&mut s, '.');
    push_char(&mut s, c);
    assert(s@ =~= prefix@ + seq!['.', c]);
    s
}

/// The channel stored under `k`, read as a `u8`.
fn get_u8(parsed: &StringHashMap<String>, k: &str) -> (r: Option<u8>)
    ensures
        r == map_u8(strs(parsed@), k@),
{
    match parsed.get(k) {
        Some(s) => parse_u8(s.as_str()),
        None => None,
    }
}

/// Reads the colour stored under `{prefix}.r`, `{prefix}.g`, `{prefix}.b`.
/// `None` when `.r` is absent or is `none` (in any case), or when a
/// channel is missing or not a number 0–255.
pub fn get_color_from_descript(parsed: &StringHashMap<String>, prefix: &str) -> (r: Option<Rgb>)
    ensures
        r == color_from_map(strs(parsed@), prefix@),
        all_ascii(strs(parsed@)[prefix@ + seq!['.', 'r']]) ==> r == color_read(
            strs(parsed@),
            prefix@,
            ascii_lower(strs(parsed@)[prefix@ + seq!['.', 'r']]),
        ),
{
    let kr = dotted(prefix, 'r');
    let r_str = match parsed.get(kr.as_str()) {
        Some(s) => s,
        None => {
            return None;
        },
    };
    let low = to_lowercase(r_str.as_str());
    let lv = chars_of(low.as_str());
    if lv.len() == 4 && lv[0] == 'n' && lv[1] == 'o' && lv[2] == 'n' && lv[3] == 'e' {
        assert(lv@ =~= none_word());
        return None;
    }
    assert(lv@ != none_word()) by {
        if lv@ == none_word() {
            assert(lv@[0] == 'n' && lv@[1] == 'o' && lv@[2] == 'n' && lv@[3] == 'e');
        }
    }
    let r = get_u8(parsed, kr.as_str());
    let g = get_u8(parsed, dotted(prefix, 'g').as_str());
    let b = get_u8(parsed, dotted(prefix, 'b').as_str());
    match (r, g, b) {
        (Some(r), Some(g), Some(b)) => Some(Rgb(r, g, b)),
        _ => None,
    }
}

/// The text `set_color_in_descript` makes.
pub open spec fn set_color_text(t: Seq<char>, prefix: Seq<char>, color: Option<Rgb>) -> Seq<char> {
    let kr = prefix + seq!['.', 'r'];
    let kg = prefix + seq!['.', 'g'];
    let kb = prefix + seq!['.', 'b'];
    match color {
        None => set_value_text(
            set_value_text(set_value_text(t, kr, none_word()), kg, none_word()),
            kb,
            none_word(),
        ),
        Some(c) => set_value_text(
            set_value_text(set_value_text(t, kr, int_numeral(c.0 as int)), kg, int_numeral(c.1 as int)),
            kb,
            int_numeral(c.2 as int),
        ),
    }
}

/// The string `none`.
fn none_string() -> (s: String)
    ensures
        s@ == none_word(),
{
    let mut s = String::new();
    push_char(&mut s, 'n');
    push_char(&mut s, 'o');
    push_char(&mut s, 'n');
    push_char(&mut s, 'e');
    assert(s@ =~= none_word());
    s
}

/// Writes a colour into `{prefix}.r`, `.g`, `.b` (each with
/// `set_descript_value`); `None` writes `none` into all three.
pub fn set_color_in_descript(text: &str, prefix: &str, color: Option<Rgb>) -> (r: String)
    ensures
        r@ == set_color_text(text@, prefix@, color),
{
    let kr = dotted(prefix, 'r');
    let kg = dotted(prefix, 'g');
    let kb = dotted(prefix, 'b');
    match color {
        None => {
            let n = none_string();
            let t = set_descript_value(text, kr.as_str(), n.as_str());
            let t = set_descript_value(t.as_str(), kg.as_str(), n.as_str());
            set_descript_value(t.as_str(), kb.as_str(), n.as_str())
        },
        Some(c) => {
            let t = set_descript_value(text, kr.as_str(), int_to_string(c.0 as i64).as_str());
            let t = set_descript_value(t.as_str(), kg.as_str(), int_to_string(c.1 as i64).as_str());
            set_descript_value(t.as_str(), kb.as_str(), int_to_string(c.2 as i64).as_str())
        },
    }
}

/// `raw` read as an `i32` coordinate: a leading `-` counts from the far
/// edge (`size + raw`, saturating), anything else from the near edge; text
/// that is no `i32` counts as 0.
pub open spec fn pos_value(raw: Seq<char>, size: i32) -> i32 {
    let val: int = match parse_in_range(raw, true, i32::MIN as int, i32::MAX as int) {
        Some(x) => x,
        None => 0,
    };
    if raw.len() > 0 && raw[0] == '-' {
        let s = size + val;
        if s > i32::MAX {
            i32::MAX
        } else if s < i32::MIN {
            i32::MIN
        } else {
            s as i32
        }
    } else {
        val as i32
    }
}

/// Coordinate conversion for descript positions: a value beginning with `-`
/// is measured from the right/bottom edge (`size + val`), any other from the
/// left/top; unreadable text counts as 0.
pub fn pos_str(raw: &str, size: i32) -> (r: i32)
    ensures
        r == pos_value(raw@, size),
{
    let v = chars_of(raw);
    let negative = v.len() > 0 && v[0] == '-';
    let val: i32 = match parse_i32(raw) {
        Some(x) => x,
        None => 0,
    };
    if negative {
        let s = size as i64 + val as i64;
        if s > i32::MAX as i64 {
            i32::MAX
        } else if s < i32::MIN as i64 {
            i32::MIN
        } else {
            s as i32
        }
    } else {
        val
    }
}

/// `number.xr`: counter position, default spelling.
pub open spec fn k_number_xr() -> Seq<char> {
    seq!['n', 'u', 'm', 'b', 'e', 'r', '.', 'x', 'r']
}

/// `number.x`: the same setting, left-based spelling.
pub open spec fn k_number_x() -> Seq<char> {
    seq!['n', 'u', 'm', 'b', 'e', 'r', '.', 'x']
}

/// `number.y`: counter vertical position, default spelling.
pub open spec fn k_number_y() -> Seq<char> {
    seq!['n', 'u', 'm', 'b', 'e', 'r', '.', 'y']
}

/// `number.yb`: the same setting, bottom-based spelling.
pub open spec fn k_number_yb() -> Seq<char> {
    seq!['n', 'u', 'm', 'b', 'e', 'r', '.', 'y', 'b']
}

/// Groups of spellings that name one setting; the first is the one written
/// when neither is present.
pub open spec fn alias_groups() -> Seq<Seq<Seq<char>>> {
    seq![seq![k_number_xr(), k_number_x()], seq![k_number_y(), k_number_yb()]]
}

/// The alias group that `key` belongs to.
pub open spec fn alias_group_of(key: Seq<char>) -> Option<Seq<Seq<char>>> {
    if key == k_number_xr() || key == k_number_x() {
        Some(alias_groups()[0])
    } else if key == k_number_y() || key == k_number_yb() {
        Some(alias_groups()[1])
    } else {
        None
    }
}

/// The character views of a list of string slices.
pub open spec fn str_views(g: Seq<&str>) -> Seq<Seq<char>> {
    g.map_values(|s: &str| s@)
}

/// `a` and `b` hold the same characters.
fn chars_eq(a: &Vec<char>, b: &Vec<char>) -> (r: bool)
    ensures
        r == (a@ == b@),
{
    if a.len() != b.len() {
        return false;
    }
    let mut i: usize = 0;
    while i < a.len()
        invariant
            a.len() == b.len(),
            i <= a.len(),
            forall|j: int| 0 <= j < i ==> a@[j] == b@[j],
        decreases a.len() - i,
    {
        if a[i] != b[i] {
            return false;
        }
        i = i + 1;
    }
    assert(a@ =~= b@);
    true
}

/// `a == b` for string slices.
pub fn str_eq(a: &str, b: &str) -> (r: bool)
    ensures
        r == (a@ == b@),
{
    chars_eq(&chars_of(a), &chars_of(b))
}

/// The alias group of `key`, if it has other spellings.
pub fn alias_group(key: &str) -> (r: Option<&'static [&'static str]>)
    ensures
        match r {
            Some(g) => g@.len() == 2 && alias_group_of(key@) == Some(str_views(g@)),
            None => alias_group_of(key@) is None,
        },
{
    let xr = "number.xr";
    let x = "number.x";
    let y = "number.y";
    let yb = "number.yb";
    proof {
        reveal_strlit("number.xr");
        reveal_strlit("number.x");
        reveal_strlit("number.y");
        reveal_strlit("number.yb");
    }
    assert(xr@ == k_number_xr() && x@ == k_number_x() && y@ == k_number_y() && yb@ == k_number_yb());
    if str_eq(key, xr) || str_eq(key, x) {
        let g: &'static [&'static str] = &["number.xr", "number.x"];
        proof {
            assert(g@.len() == 2);
            assert(g@[0]@ == k_number_xr());
            assert(g@[1]@ == k_number_x());
            assert(str_views(g@) =~= alias_groups()[0]);
        }
        Some(g)
    } else if str_eq(key, y) || str_eq(key, yb) {
        let g: &'static [&'static str] = &["number.y", "number.yb"];
        proof {
            assert(g@.len() == 2);
            assert(g@[0]@ == k_number_y());
            assert(g@[1]@ == k_number_yb());
            assert(str_views(g@) =~= alias_groups()[1]);
        }
        Some(g)
    } else {
        None
    }
}

/// The value of `key` in `m`, looking at the key itself first and then at
/// the spellings of its alias group in order.
pub open spec fn aliased_get(m: Map<Seq<char>, Seq<char>>, key: Seq<char>) -> Option<Seq<char>> {
    if m.contains_key(key) {
        Some(m[key])
    } else {
        match alias_group_of(key) {
            Some(g) => if m.contains_key(g[0]) {
                Some(m[g[0]])
            } else if m.contains_key(g[1]) {
                Some(m[g[1]])
            } else {
                None
            },
            None => None,
        }
    }
}

/// Reads `key`, falling back to its other spellings (`number.x` for
/// `number.xr` and so on) when the key itself is absent.
pub fn get_aliased<'a>(parsed: &'a StringHashMap<String>, key: &str) -> (r: Option<&'a String>)
    ensures
        match r {
            Some(s) => aliased_get(strs(parsed@), key@) == Some(s@),
            None => aliased_get(strs(parsed@), key@) is None,
        },
{
    if let Some(v) = parsed.get(key) {
        return Some(v);
    }
    match alias_group(key) {
        None => None,
        Some(g) => {
            if let Some(v) = parsed.get(g[0]) {
                return Some(v);
            }
            parsed.get(g[1])
        },
    }
}

/// Some line of `t` is a commented-out `key,` line (`//`, optional
/// whitespace, `key,`).
pub open spec fn has_commented(t: Seq<char>, key: Seq<char>) -> bool {
    commented_scan(t, key, Seq::empty(), true).1
}

/// Whether `text` holds a commented-out line for `key`.
fn has_commented_line(text: &str, key: &str) -> (r: bool)
    ensures
        r == has_commented(text@, key@),
{
    let v = chars_of(text);
    let k = chars_of(key);
    let empty: Vec<char> = Vec::new();
    let (_, found) = scan_commented(&v, &k, &empty);
    assert(empty@ =~= Seq::<char>::empty());
    found
}

/// The spelling of an alias group that a write goes to: the first with a
/// live line, else the first with a commented-out line, else the default.
pub open spec fn alias_target(t: Seq<char>, g: Seq<Seq<char>>) -> Seq<char> {
    let m = descript_map(t);
    if m.contains_key(g[0]) {
        g[0]
    } else if m.contains_key(g[1]) {
        g[1]
    } else if has_commented(t, g[0]) {
        g[0]
    } else if has_commented(t, g[1]) {
        g[1]
    } else {
        g[0]
    }
}

/// What `set_descript_value_aliased` makes of `t`.
pub open spec fn set_aliased_text(t: Seq<char>, key: Seq<char>, value: Seq<char>) -> Seq<char> {
    match alias_group_of(key) {
        None => set_value_text(t, key, value),
        Some(g) => if value.len() == 0 {
            set_value_text(set_value_text(t, g[0], value), g[1], value)
        } else {
            let target = alias_target(t, g);
            let other = if target == g[0] {
                g[1]
            } else {
                g[0]
            };
            let t1 = set_value_text(t, target, value);
            if descript_map(t).contains_key(other) {
                set_value_text(t1, other, Seq::empty())
            } else {
                t1
            }
        },
    }
}

/// `set_descript_value` that respects alias spellings: the value goes to the
/// spelling the text already uses (a live line first, then a commented-out
/// one, else the default spelling), and a live line of the other spelling is
/// commented out so that only one stays in force. An empty value comments
/// out every spelling of the group.
pub fn set_descript_value_aliased(text: &str, key: &str, value: &str) -> (r: String)
    ensures
        r@ == set_aliased_text(text@, key@, value@),
{
    let g = match alias_group(key) {
        None => {
            return set_descript_value(text, key, value);
        },
        Some(g) => g,
    };
    let g0 = g[0];
    let g1 = g[1];
    assert(g0@ == alias_group_of(key@)->0[0]);
    assert(g1@ == alias_group_of(key@)->0[1]);
    if value.is_empty() {
        let t = set_descript_value(text, g0, value);
        return set_descript_value(t.as_str(), g1, value);
    }
    let parsed = parse_descript(text);
    proof {
        lemma_models_strs(parsed@, descript_map(text@));
    }
    let target = if parsed.contains_key(g0) {
        g0
    } else if parsed.contains_key(g1) {
        g1
    } else if has_commented_line(text, g0) {
        g0
    } else if has_commented_line(text, g1) {
        g1
    } else {
        g0
    };
    let other = if str_eq(target, g0) {
        g1
    } else {
        g0
    };
    let t = set_descript_value(text, target, value);
    if parsed.contains_key(other) {
        let empty = String::new();
        set_descript_value(t.as_str(), other, empty.as_str())
    } else {
        t
    }
}

/// A line of an individual settings text survives the diff: it defines a
/// key whose value differs from the common descript (aliases included).
pub open spec fn keep_line(line: Seq<char>, base: Map<Seq<char>, Seq<char>>) -> bool {
    match line_entry(line) {
        Some(kv) => aliased_get(base, kv.0) != Some(kv.1),
        None => false,
    }
}

/// The lines that survive the diff, in order.
pub open spec fn kept_lines(ls: Seq<Seq<char>>, base: Map<Seq<char>, Seq<char>>) -> Seq<Seq<char>>
    decreases ls.len(),
{
    if ls.len() == 0 {
        Seq::empty()
    } else if keep_line(ls.last(), base) {
        kept_lines(ls.drop_last(), base).push(ls.last())
    } else {
        kept_lines(ls.drop_last(), base)
    }
}

/// What `diff_against_descript` returns.
pub open spec fn diff_text(individual: Seq<char>, descript: Seq<char>) -> Seq<char> {
    let ks = kept_lines(split_lines(individual), descript_map(descript));
    if ks.len() == 0 {
        Seq::empty()
    } else {
        join(ks, seq!['\n']) + seq!['\n']
    }
}

/// Reduces an individual balloon's settings text to what differs from the
/// common descript: only `key,value` lines whose value is not the common one
/// (alias spellings count as the same key) remain, comments and blank lines
/// go; each kept line ends with a line feed.
pub fn diff_against_descript(individual_text: &str, descript_text: &str) -> (r: String)
    ensures
        r@ == diff_text(individual_text@, descript_text@),
{
    let base = parse_descript(descript_text);
    proof {
        lemma_models_strs(base@, descript_map(descript_text@));
    }
    let ghost bm = descript_map(descript_text@);
    let v = chars_of(individual_text);
    let mut out = String::new();
    let mut any = false;
    let mut pos: usize = 0;
    let ghost mut done: Seq<Seq<char>> = Seq::empty();
    assert(v@.subrange(0, v.len() as int) =~= v@);
    while pos < v.len()
        invariant
            pos <= v.len(),
            v@ == individual_text@,
            strs(base@) == bm,
            split_lines(v@) == done + split_lines(v@.subrange(pos as int, v.len() as int)),
            any == (kept_lines(done, bm).len() > 0),
            out@ == join(kept_lines(done, bm), seq!['\n']),
        decreases v.len() - pos,
    {
        let (ls, le, next) = next_line(&v, pos);
        let ghost line = v@.subrange(ls as int, le as int);
        proof {
            assert(done + split_lines(v@.subrange(pos as int, v.len() as int)) =~= done.push(line)
                + split_lines(v@.subrange(next as int, v.len() as int)));
            assert(done.push(line).drop_last() =~= done);
        }
        let keep = match line_entry_bounds(&v, ls, le) {
            Some((ka, kb, va, vb)) => {
                let k = string_of(&v, ka, kb);
                let val = string_of(&v, va, vb);
                match get_aliased(&base, k.as_str()) {
                    Some(b) => !str_eq(b.as_str(), val.as_str()),
                    None => true,
                }
            },
            None => false,
        };
        if keep {
            let ghost ks = kept_lines(done, bm);
            if any {
                push_char(&mut out, '\n');
            }
            push_range(&mut out, &v, ls, le);
            proof {
                assert(kept_lines(done.push(line), bm) == ks.push(line));
                if ks.len() > 0 {
                    assert(ks.push(line).drop_last() =~= ks);
                    assert(out@ =~= join(ks, seq!['\n']) + seq!['\n'] + line);
                } else {
                    assert(out@ =~= line);
                }
            }
            any = true;
        }
        proof {
            done = done.push(line);
        }
        pos = next;
    }
    assert(v@.subrange(v.len() as int, v.len() as int).len() == 0);
    assert(done + Seq::<Seq<char>>::empty() =~= done);
    if any {
        push_char(&mut out, '\n');
    }
    out
}

} // verus!
