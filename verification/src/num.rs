//! Decimal and hexadecimal numerals: reading them as `str::parse` does and
//! writing them as `to_string` / `{:02X}` do.
use vstd::prelude::*;
use crate::text::chars_of;

verus! {

/// `c` is an ASCII decimal digit.
pub open spec fn is_digit(c: char) -> bool {
    '0' <= c && c <= '9'
}

/// Value of an ASCII decimal digit.
pub open spec fn digit_val(c: char) -> int {
    c as int - '0' as int
}

/// Every character is an ASCII decimal digit.
pub open spec fn all_digits(s: Seq<char>) -> bool {
    forall|i: int| 0 <= i < s.len() ==> is_digit(#[trigger] s[i])
}

/// Value of a string of decimal digits.
pub open spec fn digits_value(s: Seq<char>) -> int
    decreases s.len(),
{
    if s.len() == 0 {
        0
    } else {
        digits_value(s.drop_last()) * 10 + digit_val(s.last())
    }
}

/// The integer a numeral denotes, as `str::parse` reads it: an optional sign
/// (`-` only where `signed`), then one or more ASCII digits; anything else is
/// no numeral.
pub open spec fn parse_int(s: Seq<char>, signed: bool) -> Option<int> {
    if s.len() == 0 {
        None
    } else {
        let neg = signed && s[0] == '-';
        let body = if s[0] == '+' || neg {
            s.skip(1)
        } else {
            s
        };
        if body.len() > 0 && all_digits(body) {
            Some(
                if neg {
                    -digits_value(body)
                } else {
                    digits_value(body)
                },
            )
        } else {
            None
        }
    }
}

/// `parse_int` restricted to the range `[lo, hi]` of a machine type.
pub open spec fn parse_in_range(s: Seq<char>, signed: bool, lo: int, hi: int) -> Option<int> {
    match parse_int(s, signed) {
        Some(x) if lo <= x <= hi => Some(x),
        _ => None,
    }
}

proof fn lemma_digits_value_nonneg(s: Seq<char>)
    requires
        all_digits(s),
    ensures
        digits_value(s) >= 0,
    decreases s.len(),
{
    if s.len() > 0 {
        lemma_digits_value_nonneg(s.drop_last());
    }
}

/// Appending digits never lowers the value.
proof fn lemma_digits_value_grows(s: Seq<char>, i: int)
    requires
        all_digits(s),
        0 <= i <= s.len(),
    ensures
        digits_value(s.take(i)) <= digits_value(s),
    decreases s.len() - i,
{
    if i < s.len() {
        lemma_digits_value_grows(s, i + 1);
        assert(s.take(i + 1).drop_last() =~= s.take(i));
        lemma_digits_value_nonneg(s.take(i));
    } else {
        assert(s.take(i) =~= s);
    }
}

/// Reads `v[a..b]` as a numeral with a value in `[lo, hi]`.
pub fn parse_range(v: &Vec<char>, a: usize, b: usize, signed: bool, lo: i128, hi: i128) -> (r:
    Option<i128>)
    requires
        a <= b <= v.len(),
        lo <= 0 <= hi,
        hi <= u64::MAX,
        lo >= i64::MIN,
    ensures
        match r {
            Some(x) => parse_in_range(v@.subrange(a as int, b as int), signed, lo as int, hi as int)
                == Some(x as int),
            None => parse_in_range(v@.subrange(a as int, b as int), signed, lo as int, hi as int) is None,
        },
{
    let ghost s = v@.subrange(a as int, b as int);
    if a == b {
        return None;
    }
    let neg = signed && v[a] == '-';
    let start = if v[a] == '+' || neg {
        a + 1
    } else {
        a
    };
    let ghost body = v@.subrange(start as int, b as int);
    assert(body =~= if s[0] == '+' || neg {
        s.skip(1)
    } else {
        s
    });
    if start == b {
        return None;
    }
    let bound: i128 = if neg {
        -lo
    } else {
        hi
    };
    let mut acc: i128 = 0;
    let mut i = start;
    while i < b
        invariant
            start <= i <= b <= v.len(),
            body == v@.subrange(start as int, b as int),
            s == v@.subrange(a as int, b as int),
            s.len() > 0,
            neg == (signed && s[0] == '-'),
            body == if s[0] == '+' || neg {
                s.skip(1)
            } else {
                s
            },
            lo <= 0 <= hi,
            bound as int == if neg {
                -lo
            } else {
                hi as int
            },
            0 <= acc <= bound,
            0 <= bound <= u64::MAX,
            all_digits(body.take(i - start)),
            acc == digits_value(body.take(i - start)),
        decreases b - i,
    {
        let c = v[i];
        if !('0' <= c && c <= '9') {
            assert(body[i - start] == c);
            return None;
        }
        let d = (c as u32 - '0' as u32) as i128;
        let next = acc * 10 + d;
        assert(body.take(i - start + 1).drop_last() =~= body.take(i - start));
        assert(body.take(i - start + 1).last() == c);
        if next > bound {
            proof {
                if all_digits(body) {
                    lemma_digits_value_grows(body, i - start + 1);
                }
            }
            return None;
        }
        acc = next;
        i = i + 1;
        assert(all_digits(body.take(i - start))) by {
            assert forall|j: int| 0 <= j < i - start implies is_digit(
                #[trigger] body.take(i - start)[j],
            ) by {
                if j < i - start - 1 {
                    assert(body.take(i - start)[j] == body.take(i - start - 1)[j]);
                }
            }
        }
    }
    assert(body.take(b - start) =~= body);
    if neg {
        Some(-acc)
    } else {
        Some(acc)
    }
}

/// `text.parse::<i32>().ok()`.
pub fn parse_i32(text: &str) -> (r: Option<i32>)
    ensures
        match r {
            Some(x) => parse_in_range(text@, true, i32::MIN as int, i32::MAX as int) == Some(x as int),
            None => parse_in_range(text@, true, i32::MIN as int, i32::MAX as int) is None,
        },
{
    let v = chars_of(text);
    assert(v@.subrange(0, v@.len() as int) =~= v@);
    match parse_range(&v, 0, v.len(), true, i32::MIN as i128, i32::MAX as i128) {
        Some(x) => Some(x as i32),
        None => None,
    }
}

/// `text.parse::<u8>().ok()`.
pub fn parse_u8(text: &str) -> (r: Option<u8>)
    ensures
        match r {
            Some(x) => parse_in_range(text@, false, 0, u8::MAX as int) == Some(x as int),
            None => parse_in_range(text@, false, 0, u8::MAX as int) is None,
        },
{
    let v = chars_of(text);
    assert(v@.subrange(0, v@.len() as int) =~= v@);
    match parse_range(&v, 0, v.len(), false, 0, u8::MAX as i128) {
        Some(x) => Some(x as u8),
        None => None,
    }
}

/// `text.parse::<u32>().ok()`, on `v[a..b]`.
pub fn parse_u32_range(v: &Vec<char>, a: usize, b: usize) -> (r: Option<u32>)
    requires
        a <= b <= v.len(),
    ensures
        match r {
            Some(x) => parse_in_range(v@.subrange(a as int, b as int), false, 0, u32::MAX as int)
                == Some(x as int),
            None => parse_in_range(v@.subrange(a as int, b as int), false, 0, u32::MAX as int) is None,
        },
{
    match parse_range(v, a, b, false, 0, u32::MAX as i128) {
        Some(x) => Some(x as u32),
        None => None,
    }
}

/// Decimal digits of a natural number, as `to_string` writes them.
pub open spec fn nat_digits(n: nat) -> Seq<char>
    decreases n,
{
    if n < 10 {
        seq![('0' as u8 + n) as char]
    } else {
        nat_digits(n / 10).push(('0' as u8 + n % 10) as char)
    }
}

/// Decimal numeral of an integer, as `to_string` writes it.
pub open spec fn int_numeral(n: int) -> Seq<char> {
    if n < 0 {
        seq!['-'] + nat_digits((-n) as nat)
    } else {
        nat_digits(n as nat)
    }
}

/// Appends the decimal digits of `n`.
fn push_nat_digits(out: &mut String, n: u64)
    ensures
        final(out)@ == old(out)@ + nat_digits(n as nat),
    decreases n,
{
    if n < 10 {
        crate::text::push_char(out, ((n as u8) + 48u8) as char);
    } else {
        push_nat_digits(out, n / 10);
        crate::text::push_char(out, ((n % 10) as u8 + 48u8) as char);
    }
}

/// `n.to_string()` for any integer type that fits in `i64`.
pub fn int_to_string(n: i64) -> (s: String)
    ensures
        s@ == int_numeral(n as int),
{
    let mut s = String::new();
    if n < 0 {
        crate::text::push_char(&mut s, '-');
        let m: u64 = if n == i64::MIN {
            9223372036854775808u64
        } else {
            (-n) as u64
        };
        push_nat_digits(&mut s, m);
    } else {
        push_nat_digits(&mut s, n as u64);
    }
    s
}


/// `n.to_string()` for an unsigned integer.
pub fn nat_to_string(n: u64) -> (s: String)
    ensures
        s@ == nat_digits(n as nat),
{
    let mut s = String::new();
    push_nat_digits(&mut s, n);
    assert(s@ =~= nat_digits(n as nat));
    s
}

/// The digits of a natural number are all decimal digits, and read back as it.
pub proof fn lemma_nat_digits(n: nat)
    ensures
        all_digits(nat_digits(n)),
        digits_value(nat_digits(n)) == n,
        nat_digits(n).len() > 0,
    decreases n,
{
    if n < 10 {
        let d = ('0' as u8 + n) as char;
        assert(d as int == 48 + n);
        assert(nat_digits(n) == seq![d]);
        assert(seq![d].drop_last() =~= Seq::<char>::empty());
        assert(digits_value(seq![d]) == digits_value(Seq::<char>::empty()) * 10 + digit_val(d));
        assert(digit_val(d) == n);
    } else {
        lemma_nat_digits(n / 10);
        let s = nat_digits(n / 10);
        let d = ('0' as u8 + n % 10) as char;
        assert(d as int == 48 + n % 10);
        assert(nat_digits(n) == s.push(d));
        assert(s.push(d).drop_last() =~= s);
        assert(s.push(d).last() == d);
        assert(digits_value(s.push(d)) == digits_value(s) * 10 + digit_val(d));
        assert(digit_val(d) == n % 10);
        assert((n / 10) * 10 + n % 10 == n);
        assert forall|i: int| 0 <= i < s.push(d).len() implies is_digit(#[trigger] s.push(d)[i]) by {
            if i < s.len() {
                assert(s.push(d)[i] == s[i]);
            }
        }
    }
}

/// A numeral reads back as the number it was written from, in any range
/// that holds the number (a negative one only where signs are read).
pub proof fn lemma_parse_numeral(n: int, signed: bool, lo: int, hi: int)
    requires
        lo <= n <= hi,
        n < 0 ==> signed,
    ensures
        parse_in_range(int_numeral(n), signed, lo, hi) == Some(n),
        int_numeral(n).len() > 0,
        (int_numeral(n)[0] == '-') == (n < 0),
{
    if n < 0 {
        let m = (-n) as nat;
        lemma_nat_digits(m);
        let s = seq!['-'] + nat_digits(m);
        assert(s.skip(1) =~= nat_digits(m));
    } else {
        lemma_nat_digits(n as nat);
        let s = nat_digits(n as nat);
        assert(is_digit(s[0]));
    }
}

} // verus!
