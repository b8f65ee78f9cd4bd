//! Character-level model of the text operations the editor relies on:
//! Unicode whitespace, trimming, line splitting and searching.
use vstd::prelude::*;

verus! {

/// Unicode `White_Space` property, the set that `char::is_whitespace` and the
/// `\s` class of regular expressions test.
pub open spec fn is_ws(c: char) -> bool {
    let u = c as u32;
    ||| (0x09 <= u && u <= 0x0D)
    ||| u == 0x20
    ||| u == 0x85
    ||| u == 0xA0
    ||| u == 0x1680
    ||| (0x2000 <= u && u <= 0x200A)
    ||| u == 0x2028
    ||| u == 0x2029
    ||| u == 0x202F
    ||| u == 0x205F
    ||| u == 0x3000
}

/// Text with leading whitespace removed.
pub open spec fn trim_start(s: Seq<char>) -> Seq<char>
    decreases s.len(),
{
    if s.len() > 0 && is_ws(s[0]) {
        trim_start(s.drop_first())
    } else {
        s
    }
}

/// Text with trailing whitespace removed.
pub open spec fn trim_end(s: Seq<char>) -> Seq<char>
    decreases s.len(),
{
    if s.len() > 0 && is_ws(s.last()) {
        trim_end(s.drop_last())
    } else {
        s
    }
}

/// Text with whitespace removed at both ends.
pub open spec fn trim(s: Seq<char>) -> Seq<char> {
    trim_end(trim_start(s))
}

/// `p` is a prefix of `s`.
pub open spec fn starts_with(s: Seq<char>, p: Seq<char>) -> bool {
    p.len() <= s.len() && s.subrange(0, p.len() as int) == p
}

/// `p` is a suffix of `s`.
pub open spec fn ends_with(s: Seq<char>, p: Seq<char>) -> bool {
    p.len() <= s.len() && s.subrange(s.len() - p.len(), s.len() as int) == p
}

/// `p` occurs somewhere in `s`.
pub open spec fn contains_seq(s: Seq<char>, p: Seq<char>) -> bool {
    exists|i: int| 0 <= i && i + p.len() <= s.len() && #[trigger] s.subrange(i, i + p.len()) == p
}

/// Index of the first occurrence of `c` in `s`.
pub open spec fn find_char(s: Seq<char>, c: char) -> Option<int>
    decreases s.len(),
{
    if s.len() == 0 {
        None
    } else if s[0] == c {
        Some(0)
    } else {
        match find_char(s.drop_first(), c) {
            Some(i) => Some(i + 1),
            None => None,
        }
    }
}

/// What `find_char` returns: the first position holding `c`, or none.
pub proof fn lemma_find_char(s: Seq<char>, c: char)
    ensures
        match find_char(s, c) {
            Some(i) => 0 <= i < s.len() && s[i] == c && forall|j: int| 0 <= j < i ==> s[j] != c,
            None => forall|j: int| 0 <= j < s.len() ==> s[j] != c,
        },
    decreases s.len(),
{
    if s.len() > 0 && s[0] != c {
        lemma_find_char(s.drop_first(), c);
        assert forall|j: int| 0 < j < s.len() implies s[j] == s.drop_first()[j - 1] by {}
    }
}

/// A line as `str::lines` yields it: one `\r` before the line feed is dropped.
pub open spec fn strip_cr(s: Seq<char>) -> Seq<char> {
    if s.len() > 0 && s.last() == '\r' {
        s.drop_last()
    } else {
        s
    }
}

/// The lines of a text, as `str::lines` yields them: split at `\n`, a `\r`
/// directly before the `\n` dropped, and no empty line after a final `\n`.
pub open spec fn split_lines(s: Seq<char>) -> Seq<Seq<char>>
    decreases s.len(),
{
    if s.len() == 0 {
        Seq::empty()
    } else {
        proof {
            lemma_find_char(s, '\n');
        }
        match find_char(s, '\n') {
            None => seq![s],
            Some(i) => seq![strip_cr(s.subrange(0, i))] + split_lines(s.subrange(i + 1, s.len() as int)),
        }
    }
}

/// Concatenation of lines, each followed by `sep`, except the last.
pub open spec fn join(ls: Seq<Seq<char>>, sep: Seq<char>) -> Seq<char>
    decreases ls.len(),
{
    if ls.len() == 0 {
        Seq::empty()
    } else if ls.len() == 1 {
        ls[0]
    } else {
        join(ls.drop_last(), sep) + sep + ls.last()
    }
}

/// The characters of a `&str`.
pub fn chars_of(s: &str) -> (v: Vec<char>)
    ensures
        v@ == s@,
{
    let mut v: Vec<char> = Vec::new();
    for c in it: s.chars()
        invariant
            v@ == it.seq().take(it.index() as int),
            it.seq() == s@,
    {
        v.push(c);
    }
    v
}

/// Appends one character (`String::push`).
#[verifier::external_body]
pub(crate) fn push_char(s: &mut String, c: char)
    ensures
        final(s)@ == old(s)@.push(c),
{
    s.push(c);
}

/// Appends `v[a..b]` to `out`.
pub fn push_range(out: &mut String, v: &Vec<char>, a: usize, b: usize)
    requires
        a <= b <= v.len(),
    ensures
        final(out)@ == old(out)@ + v@.subrange(a as int, b as int),
{
    let mut i = a;
    while i < b
        invariant
            a <= i <= b <= v.len(),
            out@ == old(out)@ + v@.subrange(a as int, i as int),
        decreases b - i,
    {
        push_char(out, v[i]);
        assert(v@.subrange(a as int, i + 1) == v@.subrange(a as int, i as int).push(v@[i as int]));
        i = i + 1;
    }
}

/// Appends the characters of a `&str` to `out`.
pub fn push_str(out: &mut String, s: &str)
    ensures
        final(out)@ == old(out)@ + s@,
{
    let v = chars_of(s);
    push_range(out, &v, 0, v.len());
    assert(v@.subrange(0, v@.len() as int) == v@);
}

/// A `String` holding `v[a..b]`.
pub fn string_of(v: &Vec<char>, a: usize, b: usize) -> (s: String)
    requires
        a <= b <= v.len(),
    ensures
        s@ == v@.subrange(a as int, b as int),
{
    let mut s = String::new();
    push_range(&mut s, v, a, b);
    s
}

/// `char::is_whitespace`.
pub fn is_ws_char(c: char) -> (r: bool)
    ensures
        r == is_ws(c),
{
    let u = c as u32;
    (0x09 <= u && u <= 0x0D) || u == 0x20 || u == 0x85 || u == 0xA0 || u == 0x1680 || (0x2000
        <= u && u <= 0x200A) || u == 0x2028 || u == 0x2029 || u == 0x202F || u == 0x205F || u
        == 0x3000
}

/// Bounds of `trim_start(v[a..b])`.
pub fn trim_start_bound(v: &Vec<char>, a: usize, b: usize) -> (r: usize)
    requires
        a <= b <= v.len(),
    ensures
        a <= r <= b,
        v@.subrange(r as int, b as int) == trim_start(v@.subrange(a as int, b as int)),
{
    let mut i = a;
    while i < b && is_ws_char(v[i])
        invariant
            a <= i <= b <= v.len(),
            trim_start(v@.subrange(i as int, b as int)) == trim_start(
                v@.subrange(a as int, b as int),
            ),
        decreases b - i,
    {
        assert(v@.subrange(i as int, b as int).drop_first() == v@.subrange(i + 1, b as int));
        i = i + 1;
    }
    i
}

/// Bound of `trim_end(v[a..b])`.
pub fn trim_end_bound(v: &Vec<char>, a: usize, b: usize) -> (r: usize)
    requires
        a <= b <= v.len(),
    ensures
        a <= r <= b,
        v@.subrange(a as int, r as int) == trim_end(v@.subrange(a as int, b as int)),
{
    let mut j = b;
    while j > a && is_ws_char(v[j - 1])
        invariant
            a <= j <= b <= v.len(),
            trim_end(v@.subrange(a as int, j as int)) == trim_end(v@.subrange(a as int, b as int)),
        decreases j - a,
    {
        assert(v@.subrange(a as int, j as int).drop_last() == v@.subrange(a as int, j - 1));
        j = j - 1;
    }
    j
}

/// Bounds of `trim(v[a..b])`.
pub fn trim_bounds(v: &Vec<char>, a: usize, b: usize) -> (r: (usize, usize))
    requires
        a <= b <= v.len(),
    ensures
        a <= r.0 <= r.1 <= b,
        v@.subrange(r.0 as int, r.1 as int) == trim(v@.subrange(a as int, b as int)),
{
    let s = trim_start_bound(v, a, b);
    let e = trim_end_bound(v, s, b);
    (s, e)
}

/// Position of the first `c` in `v[a..b]`, if any.
pub fn find_char_in(v: &Vec<char>, a: usize, b: usize, c: char) -> (r: Option<usize>)
    requires
        a <= b <= v.len(),
    ensures
        match r {
            Some(i) => a <= i < b && find_char(v@.subrange(a as int, b as int), c) == Some(i - a),
            None => find_char(v@.subrange(a as int, b as int), c) is None,
        },
{
    let mut i = a;
    while i < b
        invariant
            a <= i <= b <= v.len(),
            find_char(v@.subrange(a as int, b as int), c) == match find_char(
                v@.subrange(i as int, b as int),
                c,
            ) {
                Some(k) => Some(k + (i - a)),
                None => None::<int>,
            },
        decreases b - i,
    {
        if v[i] == c {
            return Some(i);
        }
        assert(v@.subrange(i as int, b as int).drop_first() == v@.subrange(i + 1, b as int));
        i = i + 1;
    }
    None
}

/// `v[a..b]` starts with `p`.
pub fn starts_with_at(v: &Vec<char>, a: usize, b: usize, p: &Vec<char>) -> (r: bool)
    requires
        a <= b <= v.len(),
    ensures
        r == starts_with(v@.subrange(a as int, b as int), p@),
{
    if p.len() > b - a {
        return false;
    }
    let mut k: usize = 0;
    while k < p.len()
        invariant
            a <= b <= v.len(),
            p.len() <= b - a,
            k <= p.len(),
            forall|j: int| 0 <= j < k ==> v@[a + j] == p@[j],
        decreases p.len() - k,
    {
        if v[a + k] != p[k] {
            assert(v@.subrange(a as int, b as int).subrange(0, p.len() as int)[k as int] != p@[k as int]);
            return false;
        }
        k = k + 1;
    }
    assert(v@.subrange(a as int, b as int).subrange(0, p.len() as int) =~= p@);
    true
}

/// Name for what `str::to_lowercase` returns (Unicode lower-casing).
pub uninterp spec fn str_lowercase(s: Seq<char>) -> Seq<char>;

/// Every character is ASCII.
pub open spec fn all_ascii(s: Seq<char>) -> bool {
    forall|i: int| 0 <= i < s.len() ==> (#[trigger] s[i] as u32) < 0x80
}

/// ASCII upper-case letters `A`–`Z` lowered to `a`–`z`, every other character kept.
pub open spec fn ascii_lower(s: Seq<char>) -> Seq<char> {
    s.map_values(|c: char| if 'A' <= c <= 'Z' { ((c as u32) + 32) as char } else { c })
}

/// `str::to_lowercase`: the result is `str_lowercase` of the argument. On
/// ASCII text, Unicode lower-casing lowers `A`–`Z` and keeps every other
/// character; of other text the contract says no more than the name.
#[verifier::external_body]
pub(crate) fn to_lowercase(s: &str) -> (r: String)
    ensures
        r@ == str_lowercase(s@),
        all_ascii(s@) ==> r@ == ascii_lower(s@),
{
    s.to_lowercase()
}

/// Number of bytes that `c` takes in UTF-8.
pub open spec fn char_width(c: char) -> nat {
    let u = c as u32;
    if u < 0x80 {
        1
    } else if u < 0x800 {
        2
    } else if u < 0x10000 {
        3
    } else {
        4
    }
}

/// Number of bytes that `s` takes in UTF-8 (what `str::len` returns).
pub open spec fn utf8_len(s: Seq<char>) -> nat
    decreases s.len(),
{
    if s.len() == 0 {
        0
    } else {
        utf8_len(s.drop_last()) + char_width(s.last())
    }
}

/// Byte offset `k` falls between two characters of `s`.
pub open spec fn is_boundary(s: Seq<char>, k: nat) -> bool {
    exists|i: int| 0 <= i <= s.len() && #[trigger] utf8_len(s.take(i)) == k
}

/// Whether `v[a..b]` takes exactly `target` bytes in UTF-8.
pub fn utf8_len_is(v: &Vec<char>, a: usize, b: usize, target: usize) -> (r: bool)
    requires
        a <= b <= v.len(),
    ensures
        r == (utf8_len(v@.subrange(a as int, b as int)) == target),
{
    let mut n: usize = 0;
    let mut i = a;
    while i < b
        invariant
            a <= i <= b <= v.len(),
            n <= target,
            n == utf8_len(v@.subrange(a as int, i as int)),
        decreases b - i,
    {
        assert(v@.subrange(a as int, i + 1).drop_last() =~= v@.subrange(a as int, i as int));
        let u = v[i] as u32;
        let w: usize = if u < 0x80 {
            1
        } else if u < 0x800 {
            2
        } else if u < 0x10000 {
            3
        } else {
            4
        };
        if w > target - n {
            proof {
                lemma_utf8_len_prefix(v@.subrange(a as int, b as int), i + 1 - a);
                assert(v@.subrange(a as int, b as int).take(i + 1 - a) =~= v@.subrange(a as int, i + 1));
            }
            return false;
        }
        n = n + w;
        i = i + 1;
    }
    n == target
}

/// A prefix takes no more bytes than the whole.
pub proof fn lemma_utf8_len_prefix(s: Seq<char>, i: int)
    requires
        0 <= i <= s.len(),
    ensures
        utf8_len(s.take(i)) <= utf8_len(s),
    decreases s.len() - i,
{
    if i < s.len() {
        lemma_utf8_len_prefix(s, i + 1);
        assert(s.take(i + 1).drop_last() =~= s.take(i));
    } else {
        assert(s.take(i) =~= s);
    }
}

} // verus!
