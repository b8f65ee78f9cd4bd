//! Text encodings of ukagaka text files: finding the `charset,` line of a
//! file in an unknown encoding, deciding whether a file must be converted
//! to UTF-8, and checking the settings the preview cannot reproduce.
use vstd::prelude::*;
use vstd::utf8::{decode_utf8, encode_utf8, valid_utf8};
use crate::descript::{comment_mark, str_eq};
use crate::layout::views;
use crate::text::{
    chars_of, find_char, find_char_in, lemma_find_char, push_str, split_lines, starts_with, starts_with_at,
    str_lowercase, string_of, to_lowercase, trim, trim_bounds,
};

verus! {

/// `std::str::from_utf8`: the text of the bytes where they are valid UTF-8.
#[verifier::external_body]
fn from_utf8(b: &[u8]) -> (r: Option<String>)
    ensures
        match r {
            Some(s) => valid_utf8(b@) && s@ == decode_utf8(b@),
            None => !valid_utf8(b@),
        },
{
    std::str::from_utf8(b).ok().map(|s| s.to_string())
}

/// Name for what `encoding_rs::Encoding::for_label(label)` followed by
/// `Encoding::decode(bytes)` gives: the decoded text, or nothing where the
/// label names no encoding.
pub uninterp spec fn label_decode(label: Seq<u8>, bytes: Seq<u8>) -> Option<Seq<char>>;

/// Name for what `encoding_rs::SHIFT_JIS.decode(bytes)` gives.
pub uninterp spec fn shift_jis_decode(bytes: Seq<u8>) -> Seq<char>;

/// Calls `encoding_rs::Encoding::for_label` and, where it finds an
/// encoding, `Encoding::decode` (malformed bytes become U+FFFD).
#[verifier::external_body]
fn decode_with_label(label: &[u8], bytes: &[u8]) -> (r: Option<String>)
    ensures
        match r {
            Some(s) => label_decode(label@, bytes@) == Some(s@),
            None => label_decode(label@, bytes@) is None,
        },
{
    encoding_rs::Encoding::for_label(label).map(|e| e.decode(bytes).0.into_owned())
}

/// Calls `encoding_rs::SHIFT_JIS.decode` (malformed bytes become U+FFFD).
#[verifier::external_body]
fn decode_shift_jis(bytes: &[u8]) -> (r: String)
    ensures
        r@ == shift_jis_decode(bytes@),
{
    encoding_rs::SHIFT_JIS.decode(bytes).0.into_owned()
}

/// The UTF-8 byte-order mark.
pub open spec fn bom() -> Seq<u8> {
    seq![0xEFu8, 0xBBu8, 0xBFu8]
}

/// The bytes without a leading byte-order mark.
pub open spec fn without_bom(b: Seq<u8>) -> Seq<u8> {
    if b.len() >= 3 && b.take(3) == bom() {
        b.skip(3)
    } else {
        b
    }
}

/// Index of the first line feed in `s`.
pub open spec fn find_lf(s: Seq<u8>) -> Option<int>
    decreases s.len(),
{
    if s.len() == 0 {
        None
    } else if s[0] == 10u8 {
        Some(0)
    } else {
        match find_lf(s.drop_first()) {
            Some(i) => Some(i + 1),
            None => None,
        }
    }
}

/// What `find_lf` returns: the first line feed, or none.
pub proof fn lemma_find_lf(s: Seq<u8>)
    ensures
        match find_lf(s) {
            Some(i) => 0 <= i < s.len() && s[i] == 10u8 && forall|j: int| 0 <= j < i ==> s[j] != 10u8,
            None => forall|j: int| 0 <= j < s.len() ==> s[j] != 10u8,
        },
    decreases s.len(),
{
    if s.len() > 0 && s[0] != 10u8 {
        lemma_find_lf(s.drop_first());
        assert forall|j: int| 0 < j < s.len() implies s[j] == s.drop_first()[j - 1] by {}
    }
}

/// The pieces of `s` between line feeds (`[u8]::split`): always at least one.
pub open spec fn byte_lines(s: Seq<u8>) -> Seq<Seq<u8>>
    decreases s.len(),
{
    proof {
        lemma_find_lf(s);
    }
    match find_lf(s) {
        None => seq![s],
        Some(i) => seq![s.take(i)] + byte_lines(s.skip(i + 1)),
    }
}

/// `charset,` in bytes.
pub open spec fn charset_prefix() -> Seq<u8> {
    seq![99u8, 104u8, 97u8, 114u8, 115u8, 101u8, 116u8, 44u8]
}

/// `p` is a prefix of `s`.
pub open spec fn bytes_start(s: Seq<u8>, p: Seq<u8>) -> bool {
    p.len() <= s.len() && s.take(p.len() as int) == p
}

/// A line without one trailing carriage return.
pub open spec fn strip_cr_bytes(l: Seq<u8>) -> Seq<u8> {
    if l.len() > 0 && l.last() == 13u8 {
        l.drop_last()
    } else {
        l
    }
}

/// The charset that the lines name: the first `charset,` line (comment
/// lines `//` skipped) whose value, trimmed, is not empty; an empty value
/// is passed over; a value that is not UTF-8 ends the search with none.
pub open spec fn charset_in_lines(ls: Seq<Seq<u8>>) -> Option<Seq<char>>
    decreases ls.len(),
{
    if ls.len() == 0 {
        None
    } else {
        let l = strip_cr_bytes(ls[0]);
        if bytes_start(l, seq![47u8, 47u8]) {
            charset_in_lines(ls.skip(1))
        } else if bytes_start(l, charset_prefix()) {
            let rest = l.skip(8);
            if !valid_utf8(rest) {
                None
            } else if trim(decode_utf8(rest)).len() > 0 {
                Some(trim(decode_utf8(rest)))
            } else {
                charset_in_lines(ls.skip(1))
            }
        } else {
            charset_in_lines(ls.skip(1))
        }
    }
}

/// The charset a file names in its first 2048 bytes (see `charset_in_lines`).
pub open spec fn charset_of(b: Seq<u8>) -> Option<Seq<char>> {
    charset_in_lines(byte_lines(b.take(if b.len() < 2048 { b.len() as int } else { 2048 })))
}

/// Position of the first line feed in `v[a..b]`.
fn find_lf_in(v: &[u8], a: usize, b: usize) -> (r: Option<usize>)
    requires
        a <= b <= v.len(),
    ensures
        match r {
            Some(i) => a <= i < b && find_lf(v@.subrange(a as int, b as int)) == Some(i - a),
            None => find_lf(v@.subrange(a as int, b as int)) is None,
        },
{
    let mut i = a;
    while i < b
        invariant
            a <= i <= b <= v.len(),
            find_lf(v@.subrange(a as int, b as int)) == match find_lf(v@.subrange(i as int, b as int)) {
                Some(k) => Some(k + (i - a)),
                None => None::<int>,
            },
        decreases b - i,
    {
        if v[i] == 10u8 {
            return Some(i);
        }
        assert(v@.subrange(i as int, b as int).drop_first() == v@.subrange(i + 1, b as int));
        i = i + 1;
    }
    None
}

/// `v[a..b]` starts with `p`.
fn bytes_start_at(v: &[u8], a: usize, b: usize, p: &[u8]) -> (r: bool)
    requires
        a <= b <= v.len(),
    ensures
        r == bytes_start(v@.subrange(a as int, b as int), p@),
{
    if p.len() > b - a {
        return false;
    }
    let mut k: usize = 0;
    while k < p.len()
        invariant
            a <= b <= v.len(),
            p.len() <= b - a,
            k <= p.len(),
            forall|j: int| 0 <= j < k ==> v@[a + j] == p@[j],
        decreases p.len() - k,
    {
        if v[a + k] != p[k] {
            assert(v@.subrange(a as int, b as int).take(p.len() as int)[k as int] != p@[k as int]);
            return false;
        }
        k = k + 1;
    }
    assert(v@.subrange(a as int, b as int).take(p.len() as int) =~= p@);
    true
}

/// A copy of `v[a..b]`.
fn byte_range(v: &[u8], a: usize, b: usize) -> (r: Vec<u8>)
    requires
        a <= b <= v.len(),
    ensures
        r@ == v@.subrange(a as int, b as int),
{
    let mut r: Vec<u8> = Vec::new();
    let mut i = a;
    while i < b
        invariant
            a <= i <= b <= v.len(),
            r@ == v@.subrange(a as int, i as int),
        decreases b - i,
    {
        r.push(v[i]);
        assert(v@.subrange(a as int, i + 1) =~= v@.subrange(a as int, i as int).push(v@[i as int]));
        i = i + 1;
    }
    r
}

/// The charset named in the first 2048 bytes (see `charset_of`).
pub fn detect_charset_from_bytes(bytes: &[u8]) -> (r: Option<String>)
    ensures
        match r {
            Some(s) => charset_of(bytes@) == Some(s@),
            None => charset_of(bytes@) is None,
        },
{
    let n = if bytes.len() < 2048 { bytes.len() } else { 2048 };
    let ghost head = bytes@.take(n as int);
    let mut pos: usize = 0;
    let ghost mut rest_lines: Seq<Seq<u8>> = byte_lines(head);
    assert(bytes@.subrange(0, n as int) =~= head);
    let cp: [u8; 8] = [99u8, 104u8, 97u8, 114u8, 115u8, 101u8, 116u8, 44u8];
    let sl: [u8; 2] = [47u8, 47u8];
    assert(cp@ =~= charset_prefix());
    assert(sl@ =~= seq![47u8, 47u8]);
    assert(charset_of(bytes@) == charset_in_lines(byte_lines(head)));
    loop
        invariant
            pos <= n <= bytes.len(),
            head == bytes@.take(n as int),
            cp@ == charset_prefix(),
            sl@ == seq![47u8, 47u8],
            rest_lines == byte_lines(bytes@.subrange(pos as int, n as int)),
            charset_in_lines(byte_lines(head)) == charset_in_lines(rest_lines),
            charset_of(bytes@) == charset_in_lines(byte_lines(head)),
        decreases n - pos,
    {
        let ghost rest = bytes@.subrange(pos as int, n as int);
        proof {
            lemma_find_lf(rest);
        }
        let (end, last) = match find_lf_in(bytes, pos, n) {
            Some(e) => (e, false),
            None => (n, true),
        };
        let ghost line = bytes@.subrange(pos as int, end as int);
        proof {
            if last {
                assert(rest_lines == seq![rest]);
                assert(line =~= rest);
            } else {
                assert(rest.take(end - pos) =~= line);
                assert(rest.skip(end - pos + 1) =~= bytes@.subrange(end + 1, n as int));
                assert(rest_lines == seq![line] + byte_lines(bytes@.subrange(end + 1, n as int)));
            }
            assert(rest_lines[0] == line);
        }
        let le = if end > pos && bytes[end - 1] == 13u8 { end - 1 } else { end };
        assert(bytes@.subrange(pos as int, le as int) == strip_cr_bytes(line)) by {
            if end > pos && bytes@[end - 1] == 13u8 {
                assert(line.drop_last() =~= bytes@.subrange(pos as int, le as int));
            }
        }
        let is_comment = bytes_start_at(bytes, pos, le, &sl);
        if !is_comment && bytes_start_at(bytes, pos, le, &cp) {
            let v = byte_range(bytes, pos + 8, le);
            assert(v@ =~= strip_cr_bytes(line).skip(8));
            match from_utf8(v.as_slice()) {
                None => {
                    assert(charset_in_lines(rest_lines) == None::<Seq<char>>);
                    return None;
                },
                Some(text) => {
                    let cv = chars_of(text.as_str());
                    let (a, b) = trim_bounds(&cv, 0, cv.len());
                    assert(cv@.subrange(0, cv.len() as int) =~= cv@);
                    if a < b {
                        return Some(string_of(&cv, a, b));
                    }
                },
            }
        }
        assert(charset_in_lines(rest_lines) == charset_in_lines(rest_lines.skip(1)));
        if last {
            proof {
                assert(rest_lines.skip(1) =~= Seq::<Seq<u8>>::empty());
            }
            return None;
        }
        proof {
            assert(rest_lines.skip(1) =~= byte_lines(bytes@.subrange(end + 1, n as int)));
            rest_lines = rest_lines.skip(1);
        }
        pos = end + 1;
    }
}

/// What converting a text file to UTF-8 writes: nothing new where the
/// bytes (after a byte-order mark) are already UTF-8; otherwise the text
/// decoded with the encoding its `charset,` line names, else as Shift_JIS.
pub open spec fn converted_text(b: Seq<u8>) -> Option<Seq<char>> {
    if valid_utf8(without_bom(b)) {
        None
    } else {
        Some(
            match charset_of(b) {
                Some(cs) => match label_decode(encode_utf8(cs), b) {
                    Some(t) => t,
                    None => shift_jis_decode(b),
                },
                None => shift_jis_decode(b),
            },
        )
    }
}

/// Whether `b` starts with a byte-order mark.
fn has_bom(b: &[u8]) -> (r: bool)
    ensures
        r == (b@.len() >= 3 && b@.take(3) == bom()),
{
    if b.len() >= 3 && b[0] == 0xEFu8 && b[1] == 0xBBu8 && b[2] == 0xBFu8 {
        assert(b@.take(3) =~= bom());
        true
    } else {
        proof {
            if b@.len() >= 3 && b@.take(3) == bom() {
                assert(b@.take(3)[0] == 0xEFu8);
                assert(b@.take(3)[1] == 0xBBu8);
                assert(b@.take(3)[2] == 0xBFu8);
            }
        }
        false
    }
}

/// The UTF-8 text a text file is converted to, or none where it is UTF-8
/// already and is copied as it is (see `converted_text`).
pub fn utf8_conversion(bytes: &[u8]) -> (r: Option<String>)
    ensures
        match r {
            Some(s) => converted_text(bytes@) == Some(s@),
            None => converted_text(bytes@) is None,
        },
{
    let body = if has_bom(bytes) {
        byte_range(bytes, 3, bytes.len())
    } else {
        byte_range(bytes, 0, bytes.len())
    };
    assert(body@ =~= without_bom(bytes@));
    if from_utf8(body.as_slice()).is_some() {
        return None;
    }
    let text = match detect_charset_from_bytes(bytes) {
        Some(cs) => {
            let label = cs.as_str().as_bytes();
            match decode_with_label(label, bytes) {
                Some(t) => t,
                None => decode_shift_jis(bytes),
            }
        },
        None => decode_shift_jis(bytes),
    };
    Some(text)
}

/// What a text file's encoding check finds: the bytes are not UTF-8; or
/// they are, but a `charset,` line names another charset; or all is well.
pub enum EncodingStatus {
    /// Nothing to report.
    Clean,
    NonUtf8Bytes,
    NonUtf8Charset(String),
}

/// The charset a UTF-8 text declares when it is not UTF-8: the value of the
/// first `charset,` line (trimmed lines, `//` comments skipped), when that
/// value, trimmed and lower-cased, is neither empty nor `utf-8` / `utf8`.
pub open spec fn foreign_charset(lines: Seq<Seq<char>>) -> Option<Seq<char>>
    decreases lines.len(),
{
    if lines.len() == 0 {
        None
    } else {
        let l = trim(lines[0]);
        if starts_with(l, comment_mark()) {
            foreign_charset(lines.skip(1))
        } else if starts_with(l, "charset,"@) {
            let v = trim(l.skip(8));
            let cs = str_lowercase(v);
            if cs.len() > 0 && cs != "utf-8"@ && cs != "utf8"@ {
                Some(v)
            } else {
                None
            }
        } else {
            foreign_charset(lines.skip(1))
        }
    }
}

/// `EncodingStatus` as text.
pub enum StatusModel {
    Clean,
    NonUtf8Bytes,
    NonUtf8Charset(Seq<char>),
}

/// What the encoding check finds in a file's bytes (see `EncodingStatus`).
pub open spec fn encoding_status_of(b: Seq<u8>) -> StatusModel {
    let body = without_bom(b);
    if !valid_utf8(body) {
        StatusModel::NonUtf8Bytes
    } else {
        match foreign_charset(split_lines(decode_utf8(body))) {
            Some(v) => StatusModel::NonUtf8Charset(v),
            None => StatusModel::Clean,
        }
    }
}

/// The charset a line `charset,…` (trimmed, at `v[s..e]`) declares, where
/// it is not UTF-8; and whether the line is a `charset` line at all.
fn charset_line(v: &Vec<char>, s: usize, e: usize) -> (r: (bool, Option<String>))
    requires
        s <= e <= v.len(),
    ensures
        r.0 == starts_with(v@.subrange(s as int, e as int), "charset,"@),
        r.0 ==> ({
            let val = trim(v@.subrange(s as int, e as int).skip(8));
            let cs = str_lowercase(val);
            match r.1 {
                Some(x) => cs.len() > 0 && cs != "utf-8"@ && cs != "utf8"@ && x@ == val,
                None => !(cs.len() > 0 && cs != "utf-8"@ && cs != "utf8"@),
            }
        }),
{
    proof {
        reveal_strlit("charset,");
    }
    let p = chars_of("charset,");
    if !starts_with_at(v, s, e, &p) {
        return (false, None);
    }
    assert(v@.subrange(s + 8, e as int) =~= v@.subrange(s as int, e as int).skip(8));
    let (a, b) = trim_bounds(v, s + 8, e);
    let val = string_of(v, a, b);
    let cs = to_lowercase(val.as_str());
    if !cs.as_str().is_empty() && !str_eq(cs.as_str(), "utf-8") && !str_eq(cs.as_str(), "utf8") {
        (true, Some(val))
    } else {
        (true, None)
    }
}

/// Checks a text file's bytes (see `encoding_status_of`).
pub fn encoding_status(bytes: &[u8]) -> (r: EncodingStatus)
    ensures
        match (r, encoding_status_of(bytes@)) {
            (EncodingStatus::Clean, StatusModel::Clean) => true,
            (EncodingStatus::NonUtf8Bytes, StatusModel::NonUtf8Bytes) => true,
            (EncodingStatus::NonUtf8Charset(x), StatusModel::NonUtf8Charset(y)) => x@ == y,
            _ => false,
        },
{
    let body = if has_bom(bytes) {
        byte_range(bytes, 3, bytes.len())
    } else {
        byte_range(bytes, 0, bytes.len())
    };
    assert(body@ =~= without_bom(bytes@));
    let text = match from_utf8(body.as_slice()) {
        Some(t) => t,
        None => {
            return EncodingStatus::NonUtf8Bytes;
        },
    };
    let v = chars_of(text.as_str());
    let mut pos: usize = 0;
    let ghost mut rest: Seq<Seq<char>> = split_lines(v@);
    assert(v@.subrange(0, v.len() as int) =~= v@);
    while pos < v.len()
        invariant
            pos <= v.len(),
            v@ == decode_utf8(without_bom(bytes@)),
            valid_utf8(without_bom(bytes@)),
            rest == split_lines(v@.subrange(pos as int, v.len() as int)),
            foreign_charset(split_lines(v@)) == foreign_charset(rest),
        decreases v.len() - pos,
    {
        let (ls, le, next) = crate::descript::next_line(&v, pos);
        let ghost line = v@.subrange(ls as int, le as int);
        let (s, e) = trim_bounds(&v, ls, le);
        assert(rest[0] == line);
        let is_comment = e - s >= 2 && v[s] == '/' && v[s + 1] == '/';
        proof {
            let t = v@.subrange(s as int, e as int);
            if is_comment {
                assert(t.subrange(0, 2) =~= comment_mark());
            } else if starts_with(t, comment_mark()) {
                assert(t.subrange(0, 2)[0] == '/');
                assert(t.subrange(0, 2)[1] == '/');
            }
            assert(rest.skip(1) =~= split_lines(v@.subrange(next as int, v.len() as int)));
        }
        if !is_comment {
            let (is_cs, found) = charset_line(&v, s, e);
            if is_cs {
                return match found {
                    Some(x) => EncodingStatus::NonUtf8Charset(x),
                    None => EncodingStatus::Clean,
                };
            }
        }
        proof {
            rest = rest.skip(1);
        }
        pos = next;
    }
    assert(v@.subrange(v.len() as int, v.len() as int).len() == 0);
    EncodingStatus::Clean
}

/// The warning for one line of a descript: a `cursor.blendmethod` or
/// `anchor.blendmethod` set to anything but `none` or `copypen` (in any
/// case) cannot be drawn by the preview.
pub open spec fn blend_warning(line: Seq<char>) -> Option<Seq<char>> {
    let l = trim(line);
    if starts_with(l, comment_mark()) || l.len() == 0 {
        None
    } else {
        match find_char(l, ',') {
            None => None,
            Some(p) => {
                let key = trim(l.take(p));
                let raw = trim(l.skip(p + 1));
                let val = str_lowercase(raw);
                if (key == "cursor.blendmethod"@ || key == "anchor.blendmethod"@) && val != "none"@
                    && val != "copypen"@ {
                    Some(key + "="@ + raw + " (このアプリでは描画を再現できません)"@)
                } else {
                    None
                }
            },
        }
    }
}

/// The warnings of all lines, in order.
pub open spec fn blend_warnings(ls: Seq<Seq<char>>) -> Seq<Seq<char>>
    decreases ls.len(),
{
    if ls.len() == 0 {
        Seq::empty()
    } else {
        let r = blend_warnings(ls.drop_last());
        match blend_warning(ls.last()) {
            Some(w) => r.push(w),
            None => r,
        }
    }
}

/// The blend-method warning of the line `v[a..b]`, if any.
fn blend_warning_at(v: &Vec<char>, a: usize, b: usize) -> (r: Option<String>)
    requires
        a <= b <= v.len(),
    ensures
        match r {
            Some(w) => blend_warning(v@.subrange(a as int, b as int)) == Some(w@),
            None => blend_warning(v@.subrange(a as int, b as int)) is None,
        },
{
    let (s, e) = trim_bounds(v, a, b);
    let ghost l = v@.subrange(s as int, e as int);
    if s == e {
        return None;
    }
    if e - s >= 2 && v[s] == '/' && v[s + 1] == '/' {
        assert(l.subrange(0, 2) =~= comment_mark());
        return None;
    }
    proof {
        if starts_with(l, comment_mark()) {
            assert(l.subrange(0, 2)[0] == '/');
            assert(l.subrange(0, 2)[1] == '/');
        }
        lemma_find_char(l, ',');
    }
    match find_char_in(v, s, e, ',') {
        None => None,
        Some(p) => {
            let (ka, kb) = trim_bounds(v, s, p);
            let (ra, rb) = trim_bounds(v, p + 1, e);
            assert(l.take(p - s) =~= v@.subrange(s as int, p as int));
            assert(l.skip(p - s + 1) =~= v@.subrange(p + 1, e as int));
            let key = string_of(v, ka, kb);
            let raw = string_of(v, ra, rb);
            let val = to_lowercase(raw.as_str());
            if (str_eq(key.as_str(), "cursor.blendmethod") || str_eq(key.as_str(), "anchor.blendmethod"))
                && !str_eq(val.as_str(), "none") && !str_eq(val.as_str(), "copypen") {
                let mut w = key.clone();
                push_str(&mut w, "=");
                push_str(&mut w, raw.as_str());
                push_str(&mut w, " (このアプリでは描画を再現できません)");
                Some(w)
            } else {
                None
            }
        },
    }
}

/// The blend-method warnings of a descript text (see `blend_warning`).
pub fn blendmethod_warnings(text: &str) -> (r: Vec<String>)
    ensures
        views(r@) == blend_warnings(split_lines(text@)),
{
    let v = chars_of(text);
    let mut out: Vec<String> = Vec::new();
    let mut pos: usize = 0;
    let ghost mut done: Seq<Seq<char>> = Seq::empty();
    assert(v@.subrange(0, v.len() as int) =~= v@);
    assert(views(out@) =~= Seq::<Seq<char>>::empty());
    while pos < v.len()
        invariant
            pos <= v.len(),
            v@ == text@,
            split_lines(v@) == done + split_lines(v@.subrange(pos as int, v.len() as int)),
            views(out@) == blend_warnings(done),
        decreases v.len() - pos,
    {
        let (ls, le, next) = crate::descript::next_line(&v, pos);
        let ghost line = v@.subrange(ls as int, le as int);
        proof {
            assert(done + split_lines(v@.subrange(pos as int, v.len() as int)) =~= done.push(line)
                + split_lines(v@.subrange(next as int, v.len() as int)));
            assert(done.push(line).drop_last() =~= done);
        }
        let ghost o0 = views(out@);
        match blend_warning_at(&v, ls, le) {
            Some(w) => {
                out.push(w);
                assert(views(out@) =~= o0.push(w@));
            },
            None => {},
        }
        proof {
            done = done.push(line);
        }
        pos = next;
    }
    assert(v@.subrange(v.len() as int, v.len() as int).len() == 0);
    assert(done + Seq::<Seq<char>>::empty() =~= done);
    out
}

/// A path text without the Windows long-path prefix `\\?\`.
pub open spec fn without_unc_prefix(s: Seq<char>) -> Seq<char> {
    if starts_with(s, seq!['\\', '\\', '?', '\\']) {
        s.skip(4)
    } else {
        s
    }
}

/// Drops the Windows long-path prefix `\\?\` from a path text (see `without_unc_prefix`).
pub fn strip_unc_prefix(s: &str) -> (r: String)
    ensures
        r@ == without_unc_prefix(s@),
{
    let v = chars_of(s);
    if v.len() >= 4 && v[0] == '\\' && v[1] == '\\' && v[2] == '?' && v[3] == '\\' {
        assert(v@.subrange(0, 4) =~= seq!['\\', '\\', '?', '\\']);
        string_of(&v, 4, v.len())
    } else {
        proof {
            if starts_with(v@, seq!['\\', '\\', '?', '\\']) {
                assert(v@.subrange(0, 4)[0] == '\\');
                assert(v@.subrange(0, 4)[1] == '\\');
                assert(v@.subrange(0, 4)[2] == '?');
                assert(v@.subrange(0, 4)[3] == '\\');
            }
        }
        assert(v@.subrange(0, v.len() as int) =~= v@);
        string_of(&v, 0, v.len())
    }
}

} // verus!
