//! Number formatting and parsing, and whitespace trimming, on character
//! sequences.

use vstd::prelude::*;
use crate::text::{chars_of, push_char, slice_chars};

verus! {

// ---------------------------------------------------------------------------
// Decimal

pub open spec fn digit_char(d: nat) -> char {
    ((48 + d) as u8) as char
}

/// The decimal digits of `n`, most significant first, without leading zeros.
pub open spec fn dec_digits(n: nat) -> Seq<char>
    decreases n,
{
    if n < 10 {
        seq![digit_char(n)]
    } else {
        dec_digits(n / 10).push(digit_char(n % 10))
    }
}

/// Appends the decimal digits of `n`.
pub fn push_decimal(out: &mut String, n: u64)
    ensures
        final(out)@ == old(out)@ + dec_digits(n as nat),
    decreases n,
{
    if n >= 10 {
        push_decimal(out, n / 10);
    }
    let d = (n % 10) as u8;
    push_char(out, (48u8 + d) as char);
    assert(old(out)@ + dec_digits(n as nat) =~= out@);
}

/// The decimal text of `n`.
pub fn decimal(n: u64) -> (r: String)
    ensures
        r@ == dec_digits(n as nat),
{
    let mut s = String::new();
    push_decimal(&mut s, n);
    assert(s@ =~= dec_digits(n as nat));
    s
}

// ---------------------------------------------------------------------------
// Hexadecimal

/// Lower-case hexadecimal digit for `d < 16`.
pub open spec fn hex_char(d: nat) -> char {
    if d < 10 {
        ((48 + d) as u8) as char
    } else {
        ((87 + d) as u8) as char
    }
}

/// `n` in lower-case hexadecimal, left-padded with `0` to at least `w`
/// digits (the `{:0w$x}` format).
pub open spec fn hex_pad(n: nat, w: nat) -> Seq<char>
    decreases n + w,
{
    if n < 16 && w <= 1 {
        seq![hex_char(n)]
    } else {
        hex_pad(n / 16, if w > 0 {
            (w - 1) as nat
        } else {
            0
        }).push(hex_char(n % 16))
    }
}

/// Appends `n` in lower-case hexadecimal padded with `0` to `w` digits.
pub fn push_hex(out: &mut String, n: u64, w: u32)
    ensures
        final(out)@ == old(out)@ + hex_pad(n as nat, w as nat),
    decreases n + w,
{
    if !(n < 16 && w <= 1) {
        push_hex(out, n / 16, if w > 0 { w - 1 } else { 0 });
    }
    let d = (n % 16) as u8;
    if d < 10 {
        push_char(out, (48u8 + d) as char);
    } else {
        push_char(out, (87u8 + d) as char);
    }
    assert(old(out)@ + hex_pad(n as nat, w as nat) =~= out@);
}

pub proof fn lemma_hex_pad_len(n: nat, w: nat)
    requires
        w >= 1,
        n < pow16(w),
    ensures
        hex_pad(n, w).len() == w,
    decreases n + w,
{
    if !(n < 16 && w <= 1) {
        if w == 1 {
            assert(pow16(1) == 16 * pow16(0));
        } else {
            assert(pow16(w) == 16 * pow16((w - 1) as nat));
            assert(n / 16 < pow16((w - 1) as nat));
            lemma_hex_pad_len(n / 16, (w - 1) as nat);
        }
    }
}

pub open spec fn pow16(w: nat) -> nat
    decreases w,
{
    if w == 0 {
        1
    } else {
        16 * pow16((w - 1) as nat)
    }
}

pub open spec fn is_lower_hex(c: char) -> bool {
    ('0' <= c <= '9') || ('a' <= c <= 'f')
}

pub proof fn lemma_hex_pad_digits(n: nat, w: nat)
    ensures
        forall|i: int| 0 <= i < hex_pad(n, w).len() ==> is_lower_hex(#[trigger] hex_pad(n, w)[i]),
    decreases n + w,
{
    let d = n % 16;
    assert(is_lower_hex(hex_char(d))) by {
        if d < 10 {
            assert(((48 + d) as u8) as char as u32 == 48 + d);
        } else {
            assert(((87 + d) as u8) as char as u32 == 87 + d);
        }
    }
    if !(n < 16 && w <= 1) {
        let w2: nat = if w > 0 {
            (w - 1) as nat
        } else {
            0
        };
        lemma_hex_pad_digits(n / 16, w2);
        let prev = hex_pad(n / 16, w2);
        assert(hex_pad(n, w) == prev.push(hex_char(d)));
        assert forall|i: int| 0 <= i < hex_pad(n, w).len() implies is_lower_hex(
            #[trigger] hex_pad(n, w)[i],
        ) by {
            if i < prev.len() {
                assert(hex_pad(n, w)[i] == prev[i]);
            }
        }
    }
}

/// The value of a lower-case hexadecimal digit.
pub open spec fn hex_digit_value(c: char) -> int {
    if c <= '9' {
        c as int - 48
    } else {
        c as int - 87
    }
}

/// The number written by the hexadecimal digits `s`.
pub open spec fn hex_value(s: Seq<char>) -> int
    decreases s.len(),
{
    if s.len() == 0 {
        0
    } else {
        hex_value(s.drop_last()) * 16 + hex_digit_value(s.last())
    }
}

/// Padding loses nothing: the digits of `hex_pad(n, w)` read back as `n`.
pub proof fn lemma_hex_pad_value(n: nat, w: nat)
    ensures
        hex_value(hex_pad(n, w)) == n,
    decreases n + w,
{
    let d = n % 16;
    assert(hex_digit_value(hex_char(d)) == d) by {
        if d < 10 {
            assert(((48 + d) as u8) as char as u32 == 48 + d);
        } else {
            assert(((87 + d) as u8) as char as u32 == 87 + d);
        }
    }
    if n < 16 && w <= 1 {
        assert(seq![hex_char(n)].drop_last() =~= Seq::<char>::empty());
        assert(hex_value(seq![hex_char(n)]) == hex_value(Seq::<char>::empty()) * 16 + hex_digit_value(hex_char(n)));
    } else {
        let w2: nat = if w > 0 {
            (w - 1) as nat
        } else {
            0
        };
        lemma_hex_pad_value(n / 16, w2);
        let prev = hex_pad(n / 16, w2);
        assert(hex_pad(n, w) == prev.push(hex_char(d)));
        assert(prev.push(hex_char(d)).drop_last() =~= prev);
        assert(hex_value(prev.push(hex_char(d))) == hex_value(prev) * 16 + d);
        assert((n / 16) * 16 + n % 16 == n);
    }
}

// ---------------------------------------------------------------------------
// Parsing

pub open spec fn is_digit(c: char) -> bool {
    '0' <= c <= '9'
}

/// The number written by the decimal digits `s`.
pub open spec fn digits_value(s: Seq<char>) -> nat
    decreases s.len(),
{
    if s.len() == 0 {
        0
    } else {
        digits_value(s.drop_last()) * 10 + ((s.last() as u32) - 48) as nat
    }
}

/// The digits part of an unsigned number: `s` without one leading `+`.
pub open spec fn unsigned_digits(s: Seq<char>) -> Seq<char> {
    if s.len() > 0 && s[0] == '+' {
        s.drop_first()
    } else {
        s
    }
}

pub open spec fn all_digits(d: Seq<char>) -> bool {
    forall|i: int| 0 <= i < d.len() ==> is_digit(#[trigger] d[i])
}

/// `FromStr` for an unsigned integer type whose maximum is `max`: an
/// optional `+`, then at least one decimal digit and nothing else, with a
/// value at most `max`.
pub open spec fn parse_unsigned(s: Seq<char>, max: nat) -> Option<nat> {
    let d = unsigned_digits(s);
    if d.len() > 0 && all_digits(d) && digits_value(d) <= max {
        Some(digits_value(d))
    } else {
        None
    }
}

proof fn lemma_digits_value_monotone(s: Seq<char>, i: int)
    requires
        0 <= i <= s.len(),
        forall|j: int| 0 <= j < s.len() ==> is_digit(#[trigger] s[j]),
    ensures
        digits_value(s.take(i)) <= digits_value(s),
    decreases s.len() - i,
{
    if i < s.len() {
        lemma_digits_value_monotone(s, i + 1);
        assert(s.take(i + 1).drop_last() =~= s.take(i));
        assert(s.take(i + 1).last() == s[i]);
    } else {
        assert(s.take(i) =~= s);
    }
}

/// Parses `s` as an unsigned decimal no greater than `max`.
pub fn parse_decimal(s: &Vec<char>, max: u64) -> (r: Option<u64>)
    ensures
        match parse_unsigned(s@, max as nat) {
            Some(v) => r == Some(v as u64),
            None => r is None,
        },
{
    let mut i: usize = 0;
    if s.len() > 0 && s[0] == '+' {
        i = 1;
    }
    let ghost d = unsigned_digits(s@);
    let first = i;
    assert(d =~= s@.skip(first as int));
    if i == s.len() {
        return None;
    }
    let mut v: u64 = 0;
    while i < s.len()
        invariant
            first <= i <= s.len(),
            d == s@.skip(first as int),
            d == unsigned_digits(s@),
            v as nat == digits_value(d.take(i - first)),
            v <= max,
            forall|j: int| 0 <= j < i - first ==> is_digit(#[trigger] d[j]),
        decreases s.len() - i,
    {
        let c = s[i];
        if !('0' <= c && c <= '9') {
            assert(d[i - first] == c);
            assert(!is_digit(d[i - first]));
            assert(!all_digits(d));
            return None;
        }
        let dv = (c as u32 - 48) as u64;
        let ghost k = i - first;
        assert(d.take(k + 1).drop_last() =~= d.take(k));
        assert(d.take(k + 1).last() == c);
        let overflow = v > max / 10 || dv > max - v * 10;
        if overflow {
            proof {
                if v > max / 10 {
                    assert(v * 10 > max) by (nonlinear_arith)
                        requires
                            v > max / 10,
                    ;
                }
                assert(v * 10 + dv > max);
                assert(digits_value(d.take(k + 1)) > max);
                if all_digits(d) {
                    lemma_digits_value_monotone(d, k + 1);
                }
            }
            return None;
        }
        v = v * 10 + dv;
        i = i + 1;
        assert(forall|j: int| 0 <= j < i - first ==> is_digit(#[trigger] d[j]));
    }
    assert(d.take(d.len() as int) =~= d);
    Some(v)
}

// ---------------------------------------------------------------------------
// Whitespace

/// `char::is_whitespace`: the Unicode White_Space characters.
pub open spec fn is_whitespace(c: char) -> bool {
    ||| ('\u{9}' <= c <= '\u{d}')
    ||| c == ' '
    ||| c == '\u{85}'
    ||| c == '\u{a0}'
    ||| c == '\u{1680}'
    ||| ('\u{2000}' <= c <= '\u{200a}')
    ||| c == '\u{2028}'
    ||| c == '\u{2029}'
    ||| c == '\u{202f}'
    ||| c == '\u{205f}'
    ||| c == '\u{3000}'
}

pub fn is_whitespace_char(c: char) -> (r: bool)
    ensures
        r == is_whitespace(c),
{
    ('\u{9}' <= c && c <= '\u{d}') || c == ' ' || c == '\u{85}' || c == '\u{a0}' || c == '\u{1680}'
        || ('\u{2000}' <= c && c <= '\u{200a}') || c == '\u{2028}' || c == '\u{2029}' || c
        == '\u{202f}' || c == '\u{205f}' || c == '\u{3000}'
}

pub open spec fn trim_start(s: Seq<char>) -> Seq<char>
    decreases s.len(),
{
    if s.len() > 0 && is_whitespace(s[0]) {
        trim_start(s.drop_first())
    } else {
        s
    }
}

pub open spec fn trim_end(s: Seq<char>) -> Seq<char>
    decreases s.len(),
{
    if s.len() > 0 && is_whitespace(s.last()) {
        trim_end(s.drop_last())
    } else {
        s
    }
}

/// `str::trim`: leading and trailing whitespace removed.
pub open spec fn trim(s: Seq<char>) -> Seq<char> {
    trim_end(trim_start(s))
}

/// `s` without its leading and trailing whitespace.
pub fn trim_chars(s: &Vec<char>) -> (r: Vec<char>)
    ensures
        r@ == trim(s@),
{
    let mut a: usize = 0;
    assert(s@.skip(0) =~= s@);
    while a < s.len() && is_whitespace_char(s[a])
        invariant
            a <= s.len(),
            trim_start(s@) == trim_start(s@.skip(a as int)),
        decreases s.len() - a,
    {
        assert(s@.skip(a as int).drop_first() =~= s@.skip(a + 1));
        a = a + 1;
    }
    assert(trim_start(s@) == s@.skip(a as int)) by {
        assert(s@.skip(0) =~= s@);
    }
    let mut b: usize = s.len();
    assert(s@.skip(a as int) =~= s@.subrange(a as int, b as int));
    while b > a && is_whitespace_char(s[b - 1])
        invariant
            a <= b <= s.len(),
            trim(s@) == trim_end(s@.subrange(a as int, b as int)),
        decreases b,
    {
        assert(s@.subrange(a as int, b as int).drop_last() =~= s@.subrange(a as int, b - 1));
        b = b - 1;
    }
    slice_chars(s, a, b)
}

/// The text of `s` without leading and trailing whitespace.
pub fn trim_str(s: &str) -> (r: Vec<char>)
    ensures
        r@ == trim(s@),
{
    trim_chars(&chars_of(s))
}

// ---------------------------------------------------------------------------
// Comparison

/// Do `a` and `b` hold the same characters?
pub fn chars_eq(a: &Vec<char>, b: &Vec<char>) -> (r: bool)
    ensures
        r == (a@ == b@),
{
    if a.len() != b.len() {
        return false;
    }
    let mut i: usize = 0;
    while i < a.len()
        invariant
            i <= a.len() == b.len(),
            forall|j: int| 0 <= j < i ==> a@[j] == b@[j],
        decreases a.len() - i,
    {
        if a[i] != b[i] {
            return false;
        }
        i = i + 1;
    }
    assert(a@ =~= b@);
    true
}

/// Lexicographic order on character sequences (by code point), the order
/// of `str`'s `Ord`.
pub open spec fn seq_lt(a: Seq<char>, b: Seq<char>) -> bool
    decreases a.len(),
{
    if b.len() == 0 {
        false
    } else if a.len() == 0 {
        true
    } else if a[0] != b[0] {
        a[0] < b[0]
    } else {
        seq_lt(a.drop_first(), b.drop_first())
    }
}

pub fn chars_lt(a: &Vec<char>, b: &Vec<char>) -> (r: bool)
    ensures
        r == seq_lt(a@, b@),
{
    let mut i: usize = 0;
    assert(a@.skip(0) =~= a@ && b@.skip(0) =~= b@);
    while i < a.len() && i < b.len() && a[i] == b[i]
        invariant
            i <= a.len(),
            i <= b.len(),
            seq_lt(a@, b@) == seq_lt(a@.skip(i as int), b@.skip(i as int)),
        decreases a.len() - i,
    {
        assert(a@.skip(i as int).drop_first() =~= a@.skip(i + 1));
        assert(b@.skip(i as int).drop_first() =~= b@.skip(i + 1));
        i = i + 1;
    }
    assert(a@.skip(0) =~= a@ && b@.skip(0) =~= b@);
    if i == b.len() {
        false
    } else if i == a.len() {
        true
    } else {
        a[i] < b[i]
    }
}

} // verus!
