//! Naming rules of balloon images: `balloons0`, `balloonk3`, `balloonp2def1`,
//! `balloonc4`. Their sort order, and which mirror image an odd or even
//! balloon is drawn from when only its partner exists.
use vstd::prelude::*;
use crate::layout::{views, Layout, NameMap};
use crate::num::{int_numeral, lemma_parse_numeral, nat_to_string, parse_in_range, parse_u32_range};
use crate::text::{chars_of, push_str, starts_with, starts_with_at};
use crate::descript::str_eq;

verus! {

/// Name for what `regex::Regex::new(pattern)` and then `Regex::captures(hay)`
/// give: the text of every group, group 0 (the whole match) first, or
/// nothing where the pattern does not compile or does not match.
pub uninterp spec fn regex_captures(pattern: Seq<char>, hay: Seq<char>) -> Option<Seq<Seq<char>>>;

/// Calls `regex::Regex::new` and `Regex::captures`; a group that took no
/// part in the match is given as an empty text.
#[verifier::external_body]
fn captures(pattern: &str, hay: &str) -> (r: Option<Vec<String>>)
    ensures
        match r {
            Some(v) => regex_captures(pattern@, hay@) == Some(views(v@)),
            None => regex_captures(pattern@, hay@) is None,
        },
{
    let re = regex::Regex::new(pattern).ok()?;
    let caps = re.captures(hay)?;
    Some(caps.iter().map(|m| m.map_or(String::new(), |m| m.as_str().to_string())).collect())
}

/// `balloonpNdef` and its number, as two groups.
pub open spec fn pdef_group_pattern() -> Seq<char> {
    "^(balloonp\\d+def)(\\d+)$"@
}

/// Any numbered balloon family and its number, as two groups.
pub open spec fn direct_pattern() -> Seq<char> {
    "^(balloonk|balloons|balloonp\\d+def)(\\d+)$"@
}

/// The two numbers of `balloonpPdefD`.
pub open spec fn sort_pdef_pattern() -> Seq<char> {
    "^balloonp(\\d+)def(\\d+)$"@
}

fn pdef_group_re() -> (r: &'static str)
    ensures
        r@ == pdef_group_pattern(),
{
    "^(balloonp\\d+def)(\\d+)$"
}

fn direct_re() -> (r: &'static str)
    ensures
        r@ == direct_pattern(),
{
    "^(balloonk|balloons|balloonp\\d+def)(\\d+)$"
}

fn sort_pdef_re() -> (r: &'static str)
    ensures
        r@ == sort_pdef_pattern(),
{
    "^balloonp(\\d+)def(\\d+)$"
}

/// `s.parse::<u32>()`.
pub open spec fn u32_value(s: Seq<char>) -> Option<int> {
    parse_in_range(s, false, 0, 0xffff_ffff)
}

/// `s.parse::<u32>().unwrap_or(d)`.
pub open spec fn u32_or(s: Seq<char>, d: int) -> int {
    match u32_value(s) {
        Some(n) => n,
        None => d,
    }
}

/// The number after `prefix` in `name`, read as a `u32`, where `name` starts with `prefix`.
pub open spec fn number_after(name: Seq<char>, prefix: Seq<char>) -> Option<int> {
    if starts_with(name, prefix) {
        u32_value(name.skip(prefix.len() as int))
    } else {
        None
    }
}

/// `s.parse::<u32>()` on a `&str`.
fn u32_of(s: &str) -> (r: Option<u32>)
    ensures
        match r {
            Some(n) => u32_value(s@) == Some(n as int),
            None => u32_value(s@) is None,
        },
{
    let v = chars_of(s);
    assert(v@.subrange(0, v.len() as int) =~= v@);
    parse_u32_range(&v, 0, v.len())
}

/// `name.strip_prefix(prefix)` and then a `u32` parse.
fn number_after_exec(name: &str, prefix: &str) -> (r: (bool, Option<u32>))
    ensures
        r.0 == starts_with(name@, prefix@),
        match r.1 {
            Some(n) => number_after(name@, prefix@) == Some(n as int),
            None => number_after(name@, prefix@) is None,
        },
{
    let v = chars_of(name);
    let p = chars_of(prefix);
    assert(v@.subrange(0, v.len() as int) =~= v@);
    if !starts_with_at(&v, 0, v.len(), &p) {
        return (false, None);
    }
    assert(v@.subrange(p.len() as int, v.len() as int) =~= name@.skip(prefix@.len() as int));
    (true, parse_u32_range(&v, p.len(), v.len()))
}

/// The groups of a match, as texts.
pub open spec fn opt_views(o: Option<Vec<String>>) -> Option<Seq<Seq<char>>> {
    match o {
        Some(v) => Some(views(v@)),
        None => None,
    }
}

/// Sort key of a balloon name, given the groups `^balloonp(\d+)def(\d+)$`
/// captures in it: `balloons` first, then `balloonk`, then `balloonpPdefD`,
/// then `balloonc`, then everything else; within a family by number (an
/// unreadable number counts as 999, or 0 for `pdef`).
pub open spec fn sort_key_with(name: Seq<char>, pdef: Option<Seq<Seq<char>>>) -> (u8, u32, u32, u32) {
    if starts_with(name, "balloons"@) {
        (0u8, 0u32, u32_or(name.skip(8), 999) as u32, 0u32)
    } else if starts_with(name, "balloonk"@) {
        (1u8, 0u32, u32_or(name.skip(8), 999) as u32, 0u32)
    } else {
        match pdef {
            Some(c) if c.len() >= 3 => (2u8, u32_or(c[1], 0) as u32, 0u32, u32_or(c[2], 0) as u32),
            _ => if starts_with(name, "balloonc"@) {
                (3u8, 0u32, u32_or(name.skip(8), 999) as u32, 0u32)
            } else {
                (4u8, 0u32, 0u32, 0u32)
            },
        }
    }
}

/// Sort key of a balloon name (see `sort_key_with`).
pub open spec fn sort_key_of(name: Seq<char>) -> (u8, u32, u32, u32) {
    sort_key_with(name, regex_captures(sort_pdef_pattern(), name))
}

/// The sort key of a balloon name, given the groups that
/// `^balloonp(\d+)def(\d+)$` captures in it (see `sort_key_with`).
pub fn sort_key_from_captures(name: &str, pdef: Option<Vec<String>>) -> (r: (u8, u32, u32, u32))
    ensures
        r == sort_key_with(name@, opt_views(pdef)),
{
    proof {
        reveal_strlit("balloons");
        reveal_strlit("balloonk");
        reveal_strlit("balloonc");
    }
    let (s, n) = number_after_exec(name, "balloons");
    if s {
        return (0, 0, match n { Some(x) => x, None => 999 }, 0);
    }
    let (k, n) = number_after_exec(name, "balloonk");
    if k {
        return (1, 0, match n { Some(x) => x, None => 999 }, 0);
    }
    match pdef {
        Some(c) => {
            if c.len() >= 3 {
                let p = match u32_of(c[1].as_str()) { Some(x) => x, None => 0 };
                let d = match u32_of(c[2].as_str()) { Some(x) => x, None => 0 };
                return (2, p, 0, d);
            }
        },
        None => {},
    }
    let (cc, n) = number_after_exec(name, "balloonc");
    if cc {
        return (3, 0, match n { Some(x) => x, None => 999 }, 0);
    }
    (4, 0, 0, 0)
}

/// The sort key of a balloon name (see `sort_key_of`).
pub fn sort_key(name: &str) -> (r: (u8, u32, u32, u32))
    ensures
        r == sort_key_of(name@),
{
    let caps = captures(sort_pdef_re(), name);
    sort_key_from_captures(name, caps)
}

/// The pair rule: where exactly one of `even` and `odd` is a defined name,
/// the missing one is mapped to the defined one.
pub open spec fn flip_pair(
    m: Map<Seq<char>, Seq<char>>,
    defined: Set<Seq<char>>,
    even: Seq<char>,
    odd: Seq<char>,
) -> Map<Seq<char>, Seq<char>> {
    if defined.contains(even) && !defined.contains(odd) {
        m.insert(odd, even)
    } else if defined.contains(odd) && !defined.contains(even) {
        m.insert(even, odd)
    } else {
        m
    }
}

/// The pair rule for `base` with the numbers `e, e+1`, `e+2, e+3`, … as
/// long as the even one is at most `max`.
pub open spec fn flip_family(
    m: Map<Seq<char>, Seq<char>>,
    defined: Set<Seq<char>>,
    base: Seq<char>,
    e: int,
    max: int,
) -> Map<Seq<char>, Seq<char>>
    decreases max - e + 2,
{
    if e < 0 || e > max {
        m
    } else {
        flip_family(
            flip_pair(m, defined, base + int_numeral(e), base + int_numeral(e + 1)),
            defined,
            base,
            e + 2,
            max,
        )
    }
}

/// The pair rule for each family `(base, largest number)` in turn.
pub open spec fn flip_families(
    m: Map<Seq<char>, Seq<char>>,
    defined: Set<Seq<char>>,
    fams: Seq<(Seq<char>, int)>,
) -> Map<Seq<char>, Seq<char>>
    decreases fams.len(),
{
    if fams.len() == 0 {
        m
    } else {
        flip_family(flip_families(m, defined, fams.drop_last()), defined, fams.last().0, 0, fams.last().1)
    }
}

/// The largest `u32` that follows `prefix` in one of the names.
pub open spec fn prefix_max(names: Seq<Seq<char>>, prefix: Seq<char>) -> Option<int>
    decreases names.len(),
{
    if names.len() == 0 {
        None
    } else {
        let r = prefix_max(names.drop_last(), prefix);
        match number_after(names.last(), prefix) {
            None => r,
            Some(x) => match r {
                None => Some(x),
                Some(y) => Some(
                    if x > y {
                        x
                    } else {
                        y
                    },
                ),
            },
        }
    }
}

/// The `balloonk` and `balloons` families, each where one of the names has
/// a number after that prefix.
pub open spec fn prefix_families(names: Seq<Seq<char>>) -> Seq<(Seq<char>, int)> {
    let k = match prefix_max(names, "balloonk"@) {
        Some(m) => seq![("balloonk"@, m)],
        None => Seq::empty(),
    };
    let s = match prefix_max(names, "balloons"@) {
        Some(m) => seq![("balloons"@, m)],
        None => Seq::empty(),
    };
    k + s
}

/// The base (group 1) and number (group 2, read as a `u32`, 0 where it
/// does not read) that `pattern` captures in `name`.
pub open spec fn base_and_number(pattern: Seq<char>, name: Seq<char>) -> Option<(Seq<char>, int)> {
    family_of(regex_captures(pattern, name))
}

/// The family base and number that the groups of a match give: group 1
/// and group 2 read as a `u32` (0 where it does not read).
pub open spec fn family_of(caps: Option<Seq<Seq<char>>>) -> Option<(Seq<char>, int)> {
    match caps {
        Some(c) => if c.len() >= 3 {
            Some((c[1], u32_or(c[2], 0)))
        } else {
            None
        },
        None => None,
    }
}

/// `fams` with number `n` added to the family `base`: its largest number
/// grows to `n`, or the family is added at the end.
pub open spec fn add_to_family(fams: Seq<(Seq<char>, int)>, base: Seq<char>, n: int) -> Seq<(Seq<char>, int)> {
    if exists|i: int| 0 <= i < fams.len() && fams[i].0 == base {
        let i = choose|i: int| 0 <= i < fams.len() && fams[i].0 == base;
        fams.update(
            i,
            (
                base,
                if n > fams[i].1 {
                    n
                } else {
                    fams[i].1
                },
            ),
        )
    } else {
        fams.push((base, n))
    }
}

/// The families that `pattern` finds among the names, in order of first
/// appearance, each with its largest number.
pub open spec fn captured_families(names: Seq<Seq<char>>, pattern: Seq<char>) -> Seq<(Seq<char>, int)>
    decreases names.len(),
{
    if names.len() == 0 {
        Seq::empty()
    } else {
        let fs = captured_families(names.drop_last(), pattern);
        match base_and_number(pattern, names.last()) {
            None => fs,
            Some(bn) => add_to_family(fs, bn.0, bn.1),
        }
    }
}

/// Bases occur once in a family list.
pub open spec fn distinct_bases(fams: Seq<(Seq<char>, int)>) -> bool {
    forall|i: int, j: int| 0 <= i < j < fams.len() ==> fams[i].0 != fams[j].0
}

/// Every largest number is a `u32`.
pub open spec fn u32_numbers(fams: Seq<(Seq<char>, int)>) -> bool {
    forall|i: int| 0 <= i < fams.len() ==> 0 <= #[trigger] fams[i].1 <= 0xffff_ffff
}

proof fn lemma_u32_or(s: Seq<char>, d: int)
    requires
        0 <= d <= 0xffff_ffff,
    ensures
        0 <= u32_or(s, d) <= 0xffff_ffff,
{
}

proof fn lemma_captured_families(names: Seq<Seq<char>>, pattern: Seq<char>)
    ensures
        distinct_bases(captured_families(names, pattern)),
        u32_numbers(captured_families(names, pattern)),
    decreases names.len(),
{
    if names.len() > 0 {
        lemma_captured_families(names.drop_last(), pattern);
        let fs = captured_families(names.drop_last(), pattern);
        match base_and_number(pattern, names.last()) {
            None => {},
            Some(bn) => {
                let c = regex_captures(pattern, names.last())->0;
                lemma_u32_or(c[2], 0);
                let r = add_to_family(fs, bn.0, bn.1);
                if exists|i: int| 0 <= i < fs.len() && fs[i].0 == bn.0 {
                    let i = choose|i: int| 0 <= i < fs.len() && fs[i].0 == bn.0;
                    assert forall|a: int, b: int| 0 <= a < b < r.len() implies r[a].0 != r[b].0 by {
                        assert(r[a].0 == fs[a].0);
                        assert(r[b].0 == fs[b].0);
                    }
                    assert forall|a: int| 0 <= a < r.len() implies 0 <= #[trigger] r[a].1 <= 0xffff_ffff by {
                        if a != i {
                            assert(r[a] == fs[a]);
                        }
                    }
                } else {
                    assert forall|a: int, b: int| 0 <= a < b < r.len() implies r[a].0 != r[b].0 by {
                        if b < fs.len() {
                            assert(r[a] == fs[a]);
                            assert(r[b] == fs[b]);
                        }
                    }
                    assert forall|a: int| 0 <= a < r.len() implies 0 <= #[trigger] r[a].1 <= 0xffff_ffff by {
                        if a < fs.len() {
                            assert(r[a] == fs[a]);
                        }
                    }
                }
            },
        }
    }
}

/// Views of a family list.
pub open spec fn fam_views(v: Seq<(String, u32)>) -> Seq<(Seq<char>, int)> {
    v.map_values(|f: (String, u32)| (f.0@, f.1 as int))
}

/// Whether `x` is among `names`.
pub fn in_names(names: &Vec<String>, x: &str) -> (r: bool)
    ensures
        r == views(names@).to_set().contains(x@),
{
    let ghost ns = views(names@);
    let mut i: usize = 0;
    while i < names.len()
        invariant
            i <= names.len(),
            ns == views(names@),
            forall|j: int| 0 <= j < i ==> ns[j] != x@,
        decreases names.len() - i,
    {
        if str_eq(names[i].as_str(), x) {
            assert(ns[i as int] == x@);
            return true;
        }
        i = i + 1;
    }
    false
}

/// The largest `u32` after `prefix` among the names.
fn prefix_max_exec(names: &Vec<String>, prefix: &str) -> (r: Option<u32>)
    ensures
        match r {
            Some(n) => prefix_max(views(names@), prefix@) == Some(n as int),
            None => prefix_max(views(names@), prefix@) is None,
        },
{
    let ghost ns = views(names@);
    let mut best: Option<u32> = None;
    let mut i: usize = 0;
    while i < names.len()
        invariant
            i <= names.len(),
            ns == views(names@),
            match best {
                Some(n) => prefix_max(ns.take(i as int), prefix@) == Some(n as int),
                None => prefix_max(ns.take(i as int), prefix@) is None,
            },
        decreases names.len() - i,
    {
        let (_, n) = number_after_exec(names[i].as_str(), prefix);
        assert(ns.take(i + 1).drop_last() =~= ns.take(i as int));
        assert(ns.take(i + 1).last() == names@[i as int]@);
        match n {
            Some(x) => {
                best = match best {
                    None => Some(x),
                    Some(y) => Some(if x > y { x } else { y }),
                };
            },
            None => {},
        }
        i = i + 1;
    }
    assert(ns.take(names.len() as int) =~= ns);
    best
}

/// The `balloonk` and `balloons` families of the names.
fn prefix_families_exec(names: &Vec<String>) -> (r: Vec<(String, u32)>)
    ensures
        fam_views(r@) == prefix_families(views(names@)),
{
    let mut r: Vec<(String, u32)> = Vec::new();
    let k = prefix_max_exec(names, "balloonk");
    match k {
        Some(m) => {
            r.push((String::from_str("balloonk"), m));
        },
        None => {},
    }
    let s = prefix_max_exec(names, "balloons");
    match s {
        Some(m) => {
            r.push((String::from_str("balloons"), m));
        },
        None => {},
    }
    assert(fam_views(r@) =~= prefix_families(views(names@)));
    r
}

/// Adds to the family list the family that the groups of one match give
/// (see `family_of` and `add_to_family`); a list without that leaves it as it is.
pub fn add_captured_family(fams: &mut Vec<(String, u32)>, caps: Option<Vec<String>>)
    requires
        distinct_bases(fam_views(old(fams)@)),
    ensures
        fam_views(final(fams)@) == match family_of(opt_views(caps)) {
            None => fam_views(old(fams)@),
            Some(bn) => add_to_family(fam_views(old(fams)@), bn.0, bn.1),
        },
{
    let ghost fs = fam_views(fams@);
    match caps {
        Some(c) => {
            if c.len() >= 3 {
                let base = c[1].clone();
                let n = match u32_of(c[2].as_str()) {
                    Some(x) => x,
                    None => 0,
                };
                let mut j: usize = 0;
                let mut found = false;
                while j < fams.len()
                    invariant_except_break
                        !found,
                    invariant
                        j <= fams.len(),
                        fs == fam_views(fams@),
                        forall|a: int| 0 <= a < j ==> fs[a].0 != base@,
                    ensures
                        j <= fams.len(),
                        found ==> j < fams.len() && fs[j as int].0 == base@,
                        !found ==> forall|a: int| 0 <= a < fams.len() ==> fs[a].0 != base@,
                    decreases fams.len() - j,
                {
                    if str_eq(fams[j].0.as_str(), base.as_str()) {
                        found = true;
                        break;
                    }
                    j = j + 1;
                }
                if found {
                    let old_n = fams[j].1;
                    let nn = if n > old_n { n } else { old_n };
                    let b2 = base.clone();
                    fams.set(j, (b2, nn));
                    proof {
                        let k = choose|k: int| 0 <= k < fs.len() && fs[k].0 == base@;
                        assert(k == j);
                        assert(fam_views(fams@) =~= fs.update(j as int, (base@, nn as int)));
                    }
                } else {
                    fams.push((base, n));
                    assert(fam_views(fams@) =~= fs.push((c@[1]@, n as int)));
                }
            }
        },
        None => {},
    }
}

/// The families that `pattern` finds among the names.
fn captured_families_exec(names: &Vec<String>, pattern: &str) -> (r: Vec<(String, u32)>)
    ensures
        fam_views(r@) == captured_families(views(names@), pattern@),
{
    let ghost ns = views(names@);
    let mut r: Vec<(String, u32)> = Vec::new();
    let mut i: usize = 0;
    while i < names.len()
        invariant
            i <= names.len(),
            ns == views(names@),
            fam_views(r@) == captured_families(ns.take(i as int), pattern@),
        decreases names.len() - i,
    {
        assert(ns.take(i + 1).drop_last() =~= ns.take(i as int));
        assert(ns.take(i + 1).last() == names@[i as int]@);
        proof {
            lemma_captured_families(ns.take(i as int), pattern@);
        }
        let caps = captures(pattern, names[i].as_str());
        add_captured_family(&mut r, caps);
        i = i + 1;
    }
    assert(ns.take(names.len() as int) =~= ns);
    r
}

/// Applies the pair rule to one family, on the names `names`.
fn fill_family(out: &mut NameMap, names: &Vec<String>, base: &str, max: u32)
    requires
        old(out).wf(),
    ensures
        final(out).wf(),
        final(out)@ == flip_family(old(out)@, views(names@).to_set(), base@, 0, max as int),
{
    let ghost defined = views(names@).to_set();
    let mut e: u64 = 0;
    while e <= max as u64
        invariant
            e <= max as u64 + 2,
            out.wf(),
            defined == views(names@).to_set(),
            flip_family(old(out)@, defined, base@, 0, max as int) == flip_family(
                out@,
                defined,
                base@,
                e as int,
                max as int,
            ),
        decreases max as u64 + 2 - e,
    {
        let mut even_name = String::from_str(base);
        let ds = nat_to_string(e);
        push_str(&mut even_name, ds.as_str());
        let mut odd_name = String::from_str(base);
        let ds1 = nat_to_string(e + 1);
        push_str(&mut odd_name, ds1.as_str());
        let he = in_names(names, even_name.as_str());
        let ho = in_names(names, odd_name.as_str());
        if he && !ho {
            out.insert(odd_name, even_name);
        } else if ho && !he {
            out.insert(even_name, odd_name);
        }
        e = e + 2;
    }
}

/// Applies the pair rule to each family in turn.
fn fill_families(out: &mut NameMap, names: &Vec<String>, fams: &Vec<(String, u32)>)
    requires
        old(out).wf(),
    ensures
        final(out).wf(),
        final(out)@ == flip_families(old(out)@, views(names@).to_set(), fam_views(fams@)),
{
    let ghost defined = views(names@).to_set();
    let ghost fv = fam_views(fams@);
    let mut i: usize = 0;
    while i < fams.len()
        invariant
            i <= fams.len(),
            out.wf(),
            defined == views(names@).to_set(),
            fv == fam_views(fams@),
            out@ == flip_families(old(out)@, defined, fv.take(i as int)),
        decreases fams.len() - i,
    {
        fill_family(out, names, fams[i].0.as_str(), fams[i].1);
        assert(fv.take(i + 1).drop_last() =~= fv.take(i as int));
        assert(fv.take(i + 1).last() == fv[i as int]);
        i = i + 1;
    }
    assert(fv.take(fams.len() as int) =~= fv);
}

/// `a` followed by `b`.
fn concat_families(a: Vec<(String, u32)>, b: &Vec<(String, u32)>) -> (r: Vec<(String, u32)>)
    ensures
        fam_views(r@) == fam_views(a@) + fam_views(b@),
{
    let mut r = a;
    let ghost r0 = fam_views(r@);
    let mut i: usize = 0;
    while i < b.len()
        invariant
            i <= b.len(),
            fam_views(r@) == r0 + fam_views(b@).take(i as int),
        decreases b.len() - i,
    {
        let f = (b[i].0.clone(), b[i].1);
        let ghost r1 = r@;
        r.push(f);
        assert(fam_views(r@) =~= fam_views(r1).push((b@[i as int].0@, b@[i as int].1 as int)));
        assert(fam_views(b@).take(i + 1) =~= fam_views(b@).take(i as int).push(fam_views(b@)[i as int]));
        i = i + 1;
    }
    assert(fam_views(b@).take(b.len() as int) =~= fam_views(b@));
    r
}

/// Which balloon each missing odd or even balloon is mirrored from, for a
/// set of defined names: nothing unless `auto_flip`.
pub open spec fn flip_sources(names: Seq<Seq<char>>, auto_flip: bool) -> Map<Seq<char>, Seq<char>> {
    if !auto_flip {
        Map::empty()
    } else {
        flip_families(
            Map::empty(),
            names.to_set(),
            prefix_families(names) + captured_families(names, pdef_group_pattern()),
        )
    }
}

/// For each family of numbered balloons (`balloonkN`, `balloonsN`,
/// `balloonpPdefN`) and each pair `2i, 2i+1` up to its largest number: where
/// only one of the two is defined in `layout`, the other is to be drawn as
/// its mirror image. Gives missing name → source name; empty unless `auto_flip`.
pub fn make_odd_flip_sources(layout: &Layout, auto_flip: bool) -> (r: NameMap)
    requires
        layout.wf(),
    ensures
        r.wf(),
        r@ == flip_sources(layout.names(), auto_flip),
{
    let mut r = NameMap::new();
    if !auto_flip {
        return r;
    }
    let names = layout.keys();
    let ks = prefix_families_exec(&names);
    let ps = captured_families_exec(&names, pdef_group_re());
    let fams = concat_families(ks, &ps);
    flip_map_of_families(&names, &fams)
}

/// The pair rule applied to each family `(base, largest number)` in turn,
/// on the defined names `names`: missing name → the name it is mirrored
/// from (see `flip_families`).
pub fn flip_map_of_families(names: &Vec<String>, fams: &Vec<(String, u32)>) -> (r: NameMap)
    ensures
        r.wf(),
        r@ == flip_families(Map::empty(), views(names@).to_set(), fam_views(fams@)),
{
    let mut r = NameMap::new();
    fill_families(&mut r, names, fams);
    r
}

/// The order of sort keys as one integer: the tuple's lexicographic order.
pub open spec fn key_rank(k: (u8, u32, u32, u32)) -> int {
    k.0 as int * 0x1_0000_0000_0000_0000_0000_0000 + k.1 as int * 0x1_0000_0000_0000_0000
        + k.2 as int * 0x1_0000_0000 + k.3 as int
}

/// Names in non-decreasing order of their sort keys.
pub open spec fn sorted_by_key(s: Seq<Seq<char>>) -> bool {
    forall|i: int, j: int|
        0 <= i < j < s.len() ==> key_rank(sort_key_of(s[i])) <= key_rank(sort_key_of(s[j]))
}

/// `a <= b` as tuples.
fn key_le(a: (u8, u32, u32, u32), b: (u8, u32, u32, u32)) -> (r: bool)
    ensures
        r == (key_rank(a) <= key_rank(b)),
{
    if a.0 != b.0 {
        a.0 < b.0
    } else if a.1 != b.1 {
        a.1 < b.1
    } else if a.2 != b.2 {
        a.2 < b.2
    } else {
        a.3 <= b.3
    }
}

/// `a <= b` as sort keys.
pub fn key_le_pub(a: (u8, u32, u32, u32), b: (u8, u32, u32, u32)) -> (r: bool)
    ensures
        r == (key_rank(a) <= key_rank(b)),
{
    key_le(a, b)
}

/// The names ordered by their sort keys; names with equal keys keep their
/// order. Nothing is added or lost.
pub fn sort_names(names: &Vec<String>) -> (r: Vec<String>)
    ensures
        views(r@).to_multiset() == views(names@).to_multiset(),
        sorted_by_key(views(r@)),
{
    let ghost ns = views(names@);
    let mut out: Vec<String> = Vec::new();
    let mut keys: Vec<(u8, u32, u32, u32)> = Vec::new();
    let mut i: usize = 0;
    assert(views(out@) =~= ns.take(0));
    while i < names.len()
        invariant
            i <= names.len(),
            ns == views(names@),
            keys@.len() == out@.len(),
            forall|q: int| 0 <= q < out@.len() ==> keys@[q] == sort_key_of(#[trigger] out@[q]@),
            sorted_by_key(views(out@)),
            views(out@).to_multiset() == ns.take(i as int).to_multiset(),
        decreases names.len() - i,
    {
        let x = names[i].clone();
        let kx = sort_key(x.as_str());
        let mut p: usize = 0;
        while p < out.len() && key_le(keys[p], kx)
            invariant
                p <= out@.len() == keys@.len(),
                forall|q: int| 0 <= q < p ==> key_rank(#[trigger] keys@[q]) <= key_rank(kx),
            decreases out@.len() - p,
        {
            p = p + 1;
        }
        let ghost o0 = out@;
        let ghost k0 = keys@;
        out.insert(p, x);
        keys.insert(p, kx);
        proof {
            assert(views(out@) =~= views(o0).insert(p as int, x@));
            assert(ns.take(i + 1) =~= ns.take(i as int).push(x@));
            vstd::seq_lib::to_multiset_insert(views(o0), p as int, x@);
            vstd::seq_lib::to_multiset_build(ns.take(i as int), x@);
            assert forall|q: int| 0 <= q < out@.len() implies keys@[q] == sort_key_of(#[trigger] out@[q]@) by {
                if q < p {
                    assert(out@[q] == o0[q]);
                } else if q > p {
                    assert(out@[q] == o0[q - 1]);
                }
            }
            assert forall|a: int, c: int| 0 <= a < c < views(out@).len() implies key_rank(
                sort_key_of(views(out@)[a]),
            ) <= key_rank(sort_key_of(views(out@)[c])) by {
                assert(keys@[a] == sort_key_of(out@[a]@));
                assert(keys@[c] == sort_key_of(out@[c]@));
                if c < p {
                    assert(keys@[a] == k0[a] && keys@[c] == k0[c]);
                    assert(o0[a] == out@[a] && o0[c] == out@[c]);
                } else if c == p {
                    assert(keys@[a] == k0[a]);
                } else if a == p {
                    assert(keys@[c] == k0[c - 1]);
                    assert(o0[c - 1] == out@[c]);
                    assert(k0[p as int] == sort_key_of(o0[p as int]@));
                    assert(k0[c - 1] == sort_key_of(o0[c - 1]@));
                    if p < c - 1 {
                        assert(views(o0)[p as int] == o0[p as int]@);
                        assert(views(o0)[c - 1] == o0[c - 1]@);
                    }
                } else if a < p {
                    assert(keys@[a] == k0[a] && keys@[c] == k0[c - 1]);
                    assert(o0[a] == out@[a] && o0[c - 1] == out@[c]);
                    assert(views(o0)[a] == o0[a]@);
                    assert(views(o0)[c - 1] == o0[c - 1]@);
                } else {
                    assert(keys@[a] == k0[a - 1] && keys@[c] == k0[c - 1]);
                    assert(o0[a - 1] == out@[a] && o0[c - 1] == out@[c]);
                    assert(views(o0)[a - 1] == o0[a - 1]@);
                    assert(views(o0)[c - 1] == o0[c - 1]@);
                }
            }
        }
        i = i + 1;
    }
    assert(ns.take(names.len() as int) =~= ns);
    out
}

/// Two orderings of the same names hold the same set, and one is free of
/// repeats when the other is.
pub(crate) proof fn lemma_same_multiset(a: Seq<Seq<char>>, b: Seq<Seq<char>>)
    requires
        a.to_multiset() == b.to_multiset(),
    ensures
        a.to_set() == b.to_set(),
        a.no_duplicates() ==> b.no_duplicates(),
{
    broadcast use vstd::multiset::group_multiset_axioms;
    assert forall|x: Seq<char>| a.to_set().contains(x) <==> b.to_set().contains(x) by {
        vstd::seq_lib::to_multiset_contains(a, x);
        vstd::seq_lib::to_multiset_contains(b, x);
    }
    assert(a.to_set() =~= b.to_set());
    if a.no_duplicates() {
        a.lemma_multiset_has_no_duplicates();
        b.lemma_multiset_has_no_duplicates_conv();
    }
}

/// Appends the names of `src` that `all` does not hold yet.
pub(crate) fn push_new(all: &mut Vec<String>, src: &Vec<String>)
    requires
        views(old(all)@).no_duplicates(),
    ensures
        views(final(all)@).no_duplicates(),
        views(final(all)@).to_set() == views(old(all)@).to_set().union(views(src@).to_set()),
{
    let ghost a0 = views(all@).to_set();
    let ghost ss = views(src@);
    let mut i: usize = 0;
    while i < src.len()
        invariant
            i <= src.len(),
            ss == views(src@),
            views(all@).no_duplicates(),
            views(all@).to_set() == a0.union(ss.take(i as int).to_set()),
        decreases src.len() - i,
    {
        let ghost before = views(all@);
        proof {
            ss.take(i as int).lemma_push_to_set_commute(ss[i as int]);
            before.lemma_push_to_set_commute(ss[i as int]);
        }
        if !in_names(all, src[i].as_str()) {
            let x = src[i].clone();
            all.push(x);
            assert(views(all@) =~= before.push(x@));
        }
        assert(ss.take(i + 1) =~= ss.take(i as int).push(ss[i as int]));
        assert(views(all@).to_set() =~= a0.union(ss.take(i + 1).to_set()));
        i = i + 1;
    }
    assert(ss.take(src.len() as int) =~= ss);
}

/// The balloons of a folder without `slbe_files.txt`: the image names found
/// and, with `auto_flip`, each missing partner of a numbered pair.
pub open spec fn direct_balloon_names(found: Seq<Seq<char>>, auto_flip: bool) -> Set<Seq<char>> {
    if !auto_flip {
        found.to_set()
    } else {
        found.to_set().union(
            flip_families(
                Map::empty(),
                found.to_set(),
                prefix_families(found) + captured_families(found, direct_pattern()),
            ).dom(),
        )
    }
}

/// The balloon list of a folder without `slbe_files.txt`, from the names
/// `balloon*` of its PNG images: those names and, with `auto_flip`, the
/// partners to be mirrored; each once, in sort-key order.
pub fn detect_direct_balloons(found: &Vec<String>, auto_flip: bool) -> (r: Vec<String>)
    ensures
        views(r@).no_duplicates(),
        views(r@).to_set() == direct_balloon_names(views(found@), auto_flip),
        sorted_by_key(views(r@)),
{
    let mut all: Vec<String> = Vec::new();
    assert(views(all@) =~= Seq::<Seq<char>>::empty());
    assert(views(all@).to_set() =~= Set::<Seq<char>>::empty());
    push_new(&mut all, found);
    assert(views(all@).to_set() =~= views(found@).to_set());
    if auto_flip {
        let mut m = NameMap::new();
        let ks = prefix_families_exec(found);
        let ps = captured_families_exec(found, direct_re());
        let fams = concat_families(ks, &ps);
        fill_families(&mut m, found, &fams);
        let extra = m.keys();
        push_new(&mut all, &extra);
    }
    let r = sort_names(&all);
    proof {
        lemma_same_multiset(views(all@), views(r@));
    }
    r
}

/// The even partner of an odd `balloonkN` / `balloonsN`; any other name is
/// its own.
pub open spec fn even_name(stem: Seq<char>) -> Seq<char> {
    match number_after(stem, "balloonk"@) {
        Some(n) if n % 2 == 1 => "balloonk"@ + int_numeral(n - 1),
        _ => match number_after(stem, "balloons"@) {
            Some(n) if n % 2 == 1 => "balloons"@ + int_numeral(n - 1),
            _ => stem,
        },
    }
}

/// The odd partner of an even `balloonkN` / `balloonsN`; any other name is
/// its own.
pub open spec fn odd_name(stem: Seq<char>) -> Seq<char> {
    match number_after(stem, "balloonk"@) {
        Some(n) if n % 2 == 0 => "balloonk"@ + int_numeral(n + 1),
        _ => match number_after(stem, "balloons"@) {
            Some(n) if n % 2 == 0 => "balloons"@ + int_numeral(n + 1),
            _ => stem,
        },
    }
}

/// The partner a balloon is mirrored from: its even partner, else its odd
/// partner, where either differs from the name itself.
pub open spec fn flip_source(stem: Seq<char>) -> Option<Seq<char>> {
    if even_name(stem) != stem {
        Some(even_name(stem))
    } else if odd_name(stem) != stem {
        Some(odd_name(stem))
    } else {
        None
    }
}

/// `prefix` followed by the decimal digits of `n`.
fn numbered(prefix: &str, n: u32) -> (s: String)
    ensures
        s@ == prefix@ + int_numeral(n as int),
{
    let mut s = String::from_str(prefix);
    let d = nat_to_string(n as u64);
    push_str(&mut s, d.as_str());
    s
}

/// The even partner of a name (see `even_name`).
pub fn even_name_of(stem: &str) -> (r: String)
    ensures
        r@ == even_name(stem@),
{
    let (_, k) = number_after_exec(stem, "balloonk");
    match k {
        Some(n) => {
            if n % 2 == 1 {
                return numbered("balloonk", n - 1);
            }
        },
        None => {},
    }
    let (_, s) = number_after_exec(stem, "balloons");
    match s {
        Some(n) => {
            if n % 2 == 1 {
                return numbered("balloons", n - 1);
            }
        },
        None => {},
    }
    String::from_str(stem)
}

/// The odd partner of a name (see `odd_name`).
pub fn odd_name_of(stem: &str) -> (r: String)
    ensures
        r@ == odd_name(stem@),
{
    let (_, k) = number_after_exec(stem, "balloonk");
    match k {
        Some(n) => {
            if n % 2 == 0 {
                return numbered("balloonk", n + 1);
            }
        },
        None => {},
    }
    let (_, s) = number_after_exec(stem, "balloons");
    match s {
        Some(n) => {
            if n % 2 == 0 {
                return numbered("balloons", n + 1);
            }
        },
        None => {},
    }
    String::from_str(stem)
}

/// The partner a balloon is mirrored from, if any (see `flip_source`).
pub fn flip_source_of(stem: &str) -> (r: Option<String>)
    ensures
        match r {
            Some(x) => flip_source(stem@) == Some(x@),
            None => flip_source(stem@) is None,
        },
{
    let even = even_name_of(stem);
    if !str_eq(even.as_str(), stem) {
        return Some(even);
    }
    let odd = odd_name_of(stem);
    if !str_eq(odd.as_str(), stem) {
        return Some(odd);
    }
    None
}

/// Every mirror source is a defined name, and every balloon drawn as a
/// mirror image is one that is not defined.
pub open spec fn sources_defined(m: Map<Seq<char>, Seq<char>>, defined: Set<Seq<char>>) -> bool {
    forall|k: Seq<char>| #[trigger] m.contains_key(k) ==> !defined.contains(k) && defined.contains(m[k])
}

proof fn lemma_flip_family_defined(m: Map<Seq<char>, Seq<char>>, defined: Set<Seq<char>>, base: Seq<char>, e: int, max: int)
    requires
        sources_defined(m, defined),
    ensures
        sources_defined(flip_family(m, defined, base, e, max), defined),
    decreases max - e + 2,
{
    if !(e < 0 || e > max) {
        let m2 = flip_pair(m, defined, base + int_numeral(e), base + int_numeral(e + 1));
        assert(sources_defined(m2, defined));
        lemma_flip_family_defined(m2, defined, base, e + 2, max);
    }
}

proof fn lemma_flip_families_defined(m: Map<Seq<char>, Seq<char>>, defined: Set<Seq<char>>, fams: Seq<(Seq<char>, int)>)
    requires
        sources_defined(m, defined),
    ensures
        sources_defined(flip_families(m, defined, fams), defined),
    decreases fams.len(),
{
    if fams.len() > 0 {
        lemma_flip_families_defined(m, defined, fams.drop_last());
        lemma_flip_family_defined(flip_families(m, defined, fams.drop_last()), defined, fams.last().0, 0, fams.last().1);
    }
}

/// The mirror sources never invent or overwrite: each balloon drawn as a
/// mirror image is missing from the layout, and its source is in it.
pub proof fn law_flip_sources_defined(names: Seq<Seq<char>>, auto_flip: bool)
    ensures
        sources_defined(flip_sources(names, auto_flip), names.to_set()),
{
    if auto_flip {
        lemma_flip_families_defined(
            Map::empty(),
            names.to_set(),
            prefix_families(names) + captured_families(names, pdef_group_pattern()),
        );
    }
}

/// For an even number `n`, the odd partner of `{prefix}{n}` is
/// `{prefix}{n+1}`, and the even partner of that is `{prefix}{n}` again,
/// for the `balloonk` and `balloons` families; the odd balloon is mirrored
/// from the even one.
pub proof fn law_partner_round_trip(n: int, k_family: bool)
    requires
        0 <= n < 0xffff_ffff,
        n % 2 == 0,
    ensures
        ({
            let prefix = if k_family { "balloonk"@ } else { "balloons"@ };
            &&& odd_name(prefix + int_numeral(n)) == prefix + int_numeral(n + 1)
            &&& even_name(prefix + int_numeral(n + 1)) == prefix + int_numeral(n)
            &&& flip_source(prefix + int_numeral(n + 1)) == Some(prefix + int_numeral(n))
        }),
{
    reveal_strlit("balloonk");
    reveal_strlit("balloons");
    let prefix = if k_family { "balloonk"@ } else { "balloons"@ };
    let other = if k_family { "balloons"@ } else { "balloonk"@ };
    lemma_parse_numeral(n, false, 0, 0xffff_ffff);
    lemma_parse_numeral(n + 1, false, 0, 0xffff_ffff);
    let a = prefix + int_numeral(n);
    let b = prefix + int_numeral(n + 1);
    assert(a.subrange(0, 8) =~= prefix);
    assert(b.subrange(0, 8) =~= prefix);
    assert(a.skip(8) =~= int_numeral(n));
    assert(b.skip(8) =~= int_numeral(n + 1));
    assert(a.subrange(0, 8)[7] != other[7]);
    assert(b.subrange(0, 8)[7] != other[7]);
    assert(!starts_with(a, other));
    assert(!starts_with(b, other));
    assert(number_after(a, prefix) == Some(n));
    assert(number_after(b, prefix) == Some(n + 1));
    if k_family {
        assert(odd_name(a) == prefix + int_numeral(n + 1));
        assert(even_name(b) == prefix + int_numeral(n));
    } else {
        assert(number_after(a, other) is None);
        assert(number_after(b, other) is None);
        assert(odd_name(a) == prefix + int_numeral(n + 1));
        assert(even_name(b) == prefix + int_numeral(n));
    }
    assert(int_numeral(n) != int_numeral(n + 1));
    assert(b != a) by {
        if b == a {
            assert(b.skip(8) == a.skip(8));
        }
    }
}

} // verus!
