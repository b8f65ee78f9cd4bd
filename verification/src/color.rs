//! RGB colours, the four-layer colour set, and `#RRGGBB` notation.
use vstd::prelude::*;
use crate::text::{all_ascii, ascii_lower, char_width, chars_of, is_boundary, push_char, utf8_len, utf8_len_is};

verus! {

/// An RGB colour, each channel 0–255.
#[derive(Debug, Clone, Copy, PartialEq, Eq, Structural)]
pub struct Rgb(pub u8, pub u8, pub u8);

impl Rgb {
    /// Red channel.
    pub fn r(self) -> (c: u8)
        ensures
            c == self.0,
    {
        self.0
    }

    /// Green channel.
    pub fn g(self) -> (c: u8)
        ensures
            c == self.1,
    {
        self.1
    }

    /// Blue channel.
    pub fn b(self) -> (c: u8)
        ensures
            c == self.2,
    {
        self.2
    }

    /// Reads `#RRGGBB` (any number of leading `#`): six bytes must remain,
    /// all hexadecimal digits (either case), two per channel.
    pub fn from_hex(s: &str) -> (r: Result<Rgb, HexColorError>)
        ensures
            r == hex_color_result(s@),
    {
        let v = chars_of(s);
        let a = skip_hashes(&v);
        if !utf8_len_is(&v, a, v.len(), 6) {
            return Err(HexColorError::InvalidLength);
        }
        match hex_triple(&v, a) {
            Some(c) => Ok(c),
            None => Err(HexColorError::InvalidDigit),
        }
    }

    /// `#RRGGBB` with upper-case hex digits.
    pub fn to_hex(self) -> (s: String)
        ensures
            s@ == seq!['#'] + hex2(self.0) + hex2(self.1) + hex2(self.2),
    {
        let mut s = String::new();
        push_char(&mut s, '#');
        push_hex2(&mut s, self.0);
        push_hex2(&mut s, self.1);
        push_hex2(&mut s, self.2);
        s
    }

    /// Channel-wise average of two colours, rounded down.
    pub fn blend(self, other: Rgb) -> (c: Rgb)
        ensures
            c.0 == (self.0 + other.0) / 2,
            c.1 == (self.1 + other.1) / 2,
            c.2 == (self.2 + other.2) / 2,
    {
        Rgb(
            ((self.0 as u16 + other.0 as u16) / 2) as u8,
            ((self.1 as u16 + other.1 as u16) / 2) as u8,
            ((self.2 as u16 + other.2 as u16) / 2) as u8,
        )
    }
}

/// Why `#RRGGBB` could not be read.
#[derive(Debug, Clone, Copy, PartialEq, Eq, Structural)]
pub enum HexColorError {
    /// After the leading `#`, the text is not six bytes long.
    InvalidLength,
    /// A channel is not a two-character hexadecimal numeral.
    InvalidDigit,
}

/// Colours of the four layers of a balloon.
#[derive(Debug, Clone, Copy, PartialEq, Eq, Structural)]
pub struct ColorSet {
    pub base: Rgb,
    pub edge: Rgb,
    pub text: Rgb,
    pub parts: Rgb,
    /// When set, layers are output as drawn, without a colour overlay.
    pub no_color: bool,
}

impl ColorSet {
    /// A colour set with the overlay switched on.
    pub fn new(base: Rgb, edge: Rgb, text: Rgb, parts: Rgb) -> (c: ColorSet)
        ensures
            c == (ColorSet { base, edge, text, parts, no_color: false }),
    {
        ColorSet { base, edge, text, parts, no_color: false }
    }
}

/// The colours a new project starts with.
pub open spec fn default_color_set() -> ColorSet {
    ColorSet {
        base: Rgb(180, 210, 255),
        edge: Rgb(255, 255, 255),
        text: Rgb(29, 106, 184),
        parts: Rgb(29, 106, 184),
        no_color: false,
    }
}

impl Default for ColorSet {
    fn default() -> (c: ColorSet)
        ensures
            c == default_color_set(),
    {
        ColorSet::new(Rgb(180, 210, 255), Rgb(255, 255, 255), Rgb(29, 106, 184), Rgb(29, 106, 184))
    }
}

/// Text with all leading `#` removed (`trim_start_matches('#')`).
pub open spec fn trim_hashes(s: Seq<char>) -> Seq<char>
    decreases s.len(),
{
    if s.len() > 0 && s[0] == '#' {
        trim_hashes(s.drop_first())
    } else {
        s
    }
}

/// Value of a hexadecimal digit (either case).
pub open spec fn hex_val(c: char) -> Option<int> {
    if '0' <= c && c <= '9' {
        Some(c as int - '0' as int)
    } else if 'a' <= c && c <= 'f' {
        Some(c as int - 'a' as int + 10)
    } else if 'A' <= c && c <= 'F' {
        Some(c as int - 'A' as int + 10)
    } else {
        None
    }
}

/// The byte two hexadecimal digits spell.
pub open spec fn hex_pair(a: char, b: char) -> Option<u8> {
    match (hex_val(a), hex_val(b)) {
        (Some(x), Some(y)) => Some((x * 16 + y) as u8),
        _ => None,
    }
}

/// The colour six characters spell, if each pair is a channel.
pub open spec fn hex_triple_spec(t: Seq<char>) -> Option<Rgb> {
    if t.len() == 6 {
        match (hex_pair(t[0], t[1]), hex_pair(t[2], t[3]), hex_pair(t[4], t[5])) {
            (Some(r), Some(g), Some(b)) => Some(Rgb(r, g, b)),
            _ => None,
        }
    } else {
        None
    }
}

/// What `Rgb::from_hex` returns.
pub open spec fn hex_color_result(s: Seq<char>) -> Result<Rgb, HexColorError> {
    let t = trim_hashes(s);
    if utf8_len(t) != 6 {
        Err(HexColorError::InvalidLength)
    } else {
        match hex_triple_spec(t) {
            Some(c) => Ok(c),
            None => Err(HexColorError::InvalidDigit),
        }
    }
}

/// Index of the first character that is not `#`.
fn skip_hashes(v: &Vec<char>) -> (a: usize)
    ensures
        a <= v.len(),
        v@.skip(a as int) == trim_hashes(v@),
{
    let mut i: usize = 0;
    assert(v@.skip(0) =~= v@);
    while i < v.len() && v[i] == '#'
        invariant
            i <= v.len(),
            trim_hashes(v@.skip(i as int)) == trim_hashes(v@),
        decreases v.len() - i,
    {
        assert(v@.skip(i as int).drop_first() =~= v@.skip(i + 1));
        i = i + 1;
    }
    i
}

fn hex_digit(c: char) -> (r: Option<u8>)
    ensures
        match hex_val(c) {
            Some(x) => r == Some(x as u8),
            None => r is None,
        },
{
    if '0' <= c && c <= '9' {
        Some((c as u32 - '0' as u32) as u8)
    } else if 'a' <= c && c <= 'f' {
        Some((c as u32 - 'a' as u32 + 10) as u8)
    } else if 'A' <= c && c <= 'F' {
        Some((c as u32 - 'A' as u32 + 10) as u8)
    } else {
        None
    }
}

fn hex_pair_exec(a: char, b: char) -> (r: Option<u8>)
    ensures
        r == hex_pair(a, b),
{
    match (hex_digit(a), hex_digit(b)) {
        (Some(x), Some(y)) => Some(x * 16 + y),
        _ => None,
    }
}

/// The colour that `v[a..]` spells as six characters.
fn hex_triple(v: &Vec<char>, a: usize) -> (r: Option<Rgb>)
    requires
        a <= v.len(),
    ensures
        r == hex_triple_spec(v@.skip(a as int)),
{
    if v.len() - a != 6 {
        return None;
    }
    let r = hex_pair_exec(v[a], v[a + 1]);
    let g = hex_pair_exec(v[a + 2], v[a + 3]);
    let b = hex_pair_exec(v[a + 4], v[a + 5]);
    match (r, g, b) {
        (Some(r), Some(g), Some(b)) => Some(Rgb(r, g, b)),
        _ => None,
    }
}

/// Reads `#RRGGBB` as a colour (as `parse_hex_color` of the preview and
/// settings panels does): `None` where `Rgb::from_hex` fails.
pub fn parse_hex_color(s: &str) -> (r: Option<Rgb>)
    ensures
        r == match hex_color_result(s@) {
            Ok(c) => Some(c),
            Err(_) => None::<Rgb>,
        },
{
    match Rgb::from_hex(s) {
        Ok(c) => Some(c),
        Err(_) => None,
    }
}

/// Upper-case hexadecimal digit of `n < 16`.
pub open spec fn hex_digit_char(n: int) -> char {
    if n < 10 {
        ('0' as int + n) as char
    } else {
        ('A' as int + n - 10) as char
    }
}

/// `{:02X}` of a byte.
pub open spec fn hex2(n: u8) -> Seq<char> {
    seq![hex_digit_char(n as int / 16), hex_digit_char(n as int % 16)]
}

fn hex_digit_exec(n: u8) -> (c: char)
    requires
        n < 16,
    ensures
        c == hex_digit_char(n as int),
{
    if n < 10 {
        (n + 48u8) as char
    } else {
        (n - 10 + 65u8) as char
    }
}

fn push_hex2(s: &mut String, n: u8)
    ensures
        final(s)@ == old(s)@ + hex2(n),
{
    push_char(s, hex_digit_exec(n / 16));
    push_char(s, hex_digit_exec(n % 16));
    assert(s@ =~= old(s)@ + hex2(n));
}

proof fn lemma_hex_digit(n: int)
    requires
        0 <= n < 16,
    ensures
        hex_val(hex_digit_char(n)) == Some(n),
        hex_val(lower_char(hex_digit_char(n))) == Some(n),
        char_width(hex_digit_char(n)) == 1,
        char_width(lower_char(hex_digit_char(n))) == 1,
        (hex_digit_char(n) as u32) < 0x80,
{
}

/// A character as `ascii_lower` lowers it.
pub open spec fn lower_char(c: char) -> char {
    if 'A' <= c <= 'Z' {
        ((c as u32) + 32) as char
    } else {
        c
    }
}

/// Writing a colour as `#RRGGBB` and reading it back gives the same colour;
/// so does reading it back without the `#`, or lower-cased (the text is
/// ASCII, which `str::to_lowercase` lowers as `ascii_lower` does).
pub proof fn law_hex_round_trip(c: Rgb)
    ensures
        hex_color_result(seq!['#'] + hex2(c.0) + hex2(c.1) + hex2(c.2)) == Ok::<Rgb, HexColorError>(c),
        hex_color_result(hex2(c.0) + hex2(c.1) + hex2(c.2)) == Ok::<Rgb, HexColorError>(c),
        all_ascii(seq!['#'] + hex2(c.0) + hex2(c.1) + hex2(c.2)),
        hex_color_result(ascii_lower(seq!['#'] + hex2(c.0) + hex2(c.1) + hex2(c.2))) == Ok::<Rgb, HexColorError>(c),
{
    let s = seq!['#'] + hex2(c.0) + hex2(c.1) + hex2(c.2);
    let t = hex2(c.0) + hex2(c.1) + hex2(c.2);
    assert(s.drop_first() =~= t);
    lemma_hex_digit(c.0 as int / 16);
    lemma_hex_digit(c.0 as int % 16);
    lemma_hex_digit(c.1 as int / 16);
    lemma_hex_digit(c.1 as int % 16);
    lemma_hex_digit(c.2 as int / 16);
    lemma_hex_digit(c.2 as int % 16);
    assert(t.len() == 6);
    assert(trim_hashes(t) == t);
    assert(trim_hashes(s) == t);
    reveal_with_fuel(utf8_len, 7);
    assert(utf8_len(t) == 6);
    assert(hex_pair(t[0], t[1]) == Some(c.0));
    assert(hex_pair(t[2], t[3]) == Some(c.1));
    assert(hex_pair(t[4], t[5]) == Some(c.2));
    assert forall|i: int| 0 <= i < s.len() implies (#[trigger] s[i] as u32) < 0x80 by {
        if i > 0 {
            assert(s[i] == t[i - 1]);
        }
    }
    let ls = ascii_lower(s);
    let lt = ls.drop_first();
    assert(ls[0] == '#');
    assert(lt.len() == 6);
    assert forall|i: int| 0 <= i < 6 implies #[trigger] lt[i] == lower_char(t[i]) by {
        assert(lt[i] == ls[i + 1]);
        assert(s[i + 1] == t[i]);
    }
    assert(trim_hashes(lt) == lt);
    assert(trim_hashes(ls) == lt);
    assert(utf8_len(lt) == 6);
    assert(hex_pair(lt[0], lt[1]) == Some(c.0));
    assert(hex_pair(lt[2], lt[3]) == Some(c.1));
    assert(hex_pair(lt[4], lt[5]) == Some(c.2));
}

} // verus!
