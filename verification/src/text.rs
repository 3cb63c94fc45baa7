//! Byte-level text helpers shared by the packet codecs: ASCII classes,
//! UTF-8 validation, `str::trim`, decimal parsing as `str::parse` does it,
//! and zero-padded decimal formatting as `{:0N}` does it.

use vstd::prelude::*;
use vstd::utf8::*;

verus! {

pub open spec fn is_digit(c: u8) -> bool {
    0x30 <= c <= 0x39
}

pub open spec fn is_upper(c: u8) -> bool {
    0x41 <= c <= 0x5A
}

pub open spec fn is_lower(c: u8) -> bool {
    0x61 <= c <= 0x7A
}

pub open spec fn is_alpha(c: u8) -> bool {
    is_upper(c) || is_lower(c)
}

/// `char::to_ascii_lowercase` on a byte.
pub open spec fn lower(c: u8) -> u8 {
    if is_upper(c) {
        (c + 32) as u8
    } else {
        c
    }
}

pub fn digit(c: u8) -> (r: bool)
    ensures
        r == is_digit(c),
{
    0x30 <= c && c <= 0x39
}

pub fn upper_letter(c: u8) -> (r: bool)
    ensures
        r == is_upper(c),
{
    0x41 <= c && c <= 0x5A
}

pub fn lower_letter(c: u8) -> (r: bool)
    ensures
        r == is_lower(c),
{
    0x61 <= c && c <= 0x7A
}

pub fn to_lower(c: u8) -> (r: u8)
    ensures
        r == lower(c),
{
    if 0x41 <= c && c <= 0x5A {
        c + 32
    } else {
        c
    }
}

/// True when every byte of `s` is an ASCII digit.
pub open spec fn all_digits(s: Seq<u8>) -> bool {
    forall|i: int| 0 <= i < s.len() ==> #[trigger] is_digit(s[i])
}

/// The value of a run of ASCII digits, most significant first.
pub open spec fn digits_value(s: Seq<u8>) -> nat
    decreases s.len(),
{
    if s.len() == 0 {
        0
    } else {
        digits_value(s.drop_last()) * 10 + (s.last() - 0x30) as nat
    }
}

/// What `str::parse` gives for an unsigned integer type, before the range
/// check: an optional `+`, then one digit or more.
pub open spec fn parse_unsigned(s: Seq<u8>) -> Option<nat> {
    let d = if s.len() > 0 && s[0] == 0x2B {
        s.drop_first()
    } else {
        s
    };
    if d.len() > 0 && all_digits(d) {
        Some(digits_value(d))
    } else {
        None
    }
}

/// What `str::parse` gives for a signed integer type, before the range check:
/// an optional `+` or `-`, then one digit or more.
pub open spec fn parse_signed(s: Seq<u8>) -> Option<int> {
    if s.len() > 0 && s[0] == 0x2D {
        let d = s.drop_first();
        if d.len() > 0 && all_digits(d) {
            Some(-(digits_value(d) as int))
        } else {
            None
        }
    } else {
        match parse_unsigned(s) {
            Some(v) => Some(v as int),
            None => None,
        }
    }
}

/// `str::parse::<u16>` on the text `s`.
pub open spec fn parse_u16(s: Seq<u8>) -> Option<u16> {
    match parse_unsigned(s) {
        Some(v) => if v <= 0xFFFF {
            Some(v as u16)
        } else {
            None
        },
        None => None,
    }
}

/// `str::parse::<u32>` on the text `s`.
pub open spec fn parse_u32(s: Seq<u8>) -> Option<u32> {
    match parse_unsigned(s) {
        Some(v) => if v <= 0xFFFF_FFFF {
            Some(v as u32)
        } else {
            None
        },
        None => None,
    }
}

/// `str::parse::<i16>` on the text `s`.
pub open spec fn parse_i16(s: Seq<u8>) -> Option<i16> {
    match parse_signed(s) {
        Some(v) => if -0x8000 <= v <= 0x7FFF {
            Some(v as i16)
        } else {
            None
        },
        None => None,
    }
}

pub proof fn lemma_digits_value_take(s: Seq<u8>, k: int)
    requires
        0 <= k < s.len(),
    ensures
        digits_value(s.take(k + 1)) == digits_value(s.take(k)) * 10 + (s[k] - 0x30) as nat,
{
    assert(s.take(k + 1).drop_last() =~= s.take(k));
}

/// Appending digits never makes the value smaller.
pub proof fn lemma_digits_value_mono(s: Seq<u8>, j: int, k: int)
    requires
        0 <= j <= k <= s.len(),
        all_digits(s),
    ensures
        digits_value(s.take(j)) <= digits_value(s.take(k)),
    decreases k - j,
{
    if j < k {
        lemma_digits_value_mono(s, j, k - 1);
        lemma_digits_value_take(s, k - 1);
        assert(is_digit(s[k - 1]));
    }
}

/// Value of the digits `s[start..end]`, or `None` when one of them is not a
/// digit, the range is empty, or the value exceeds `max`.
fn digits_in(s: &[u8], start: usize, end: usize, max: u64) -> (r: Option<u64>)
    requires
        start <= end <= s.len(),
    ensures
        ({
            let d = s@.subrange(start as int, end as int);
            match r {
                Some(v) => d.len() > 0 && all_digits(d) && v == digits_value(d) && v <= max,
                None => !(d.len() > 0 && all_digits(d) && digits_value(d) <= max),
            }
        }),
{
    let ghost d = s@.subrange(start as int, end as int);
    if start == end {
        return None;
    }
    let mut i: usize = start;
    let mut acc: u64 = 0;
    while i < end
        invariant
            start <= i <= end <= s.len(),
            d == s@.subrange(start as int, end as int),
            all_digits(d.take(i - start)),
            acc == digits_value(d.take(i - start)),
            acc <= max,
        decreases end - i,
    {
        let c = s[i];
        if !(0x30 <= c && c <= 0x39) {
            assert(!is_digit(d[i - start]));
            return None;
        }
        proof {
            lemma_digits_value_take(d, i - start);
        }
        let dv: u64 = (c - 0x30) as u64;
        if dv > max || acc > (max - dv) / 10 {
            proof {
                if dv <= max {
                    assert(acc * 10 + dv > max) by (nonlinear_arith)
                        requires
                            acc > (max - dv) / 10,
                            dv <= max,
                    ;
                }
                assert forall|m: int| 0 <= m < i + 1 - start implies #[trigger] is_digit(
                    d.take(i + 1 - start)[m],
                ) by {
                    if m < i - start {
                        assert(d.take(i + 1 - start)[m] == d.take(i - start)[m]);
                    }
                }
                if all_digits(d) {
                    lemma_digits_value_mono(d, i + 1 - start, d.len() as int);
                    assert(d.take(d.len() as int) =~= d);
                }
            }
            return None;
        }
        proof {
            assert(acc * 10 + dv <= max) by (nonlinear_arith)
                requires
                    acc <= (max - dv) / 10,
                    dv <= 9,
            ;
            assert forall|m: int| 0 <= m < i + 1 - start implies #[trigger] is_digit(
                d.take(i + 1 - start)[m],
            ) by {
                if m < i - start {
                    assert(d.take(i + 1 - start)[m] == d.take(i - start)[m]);
                }
            }
        }
        acc = acc * 10 + dv;
        i = i + 1;
    }
    assert(d.take(end - start) =~= d);
    Some(acc)
}

/// `str::parse` for an unsigned integer type whose largest value is `max`,
/// on the text `s[start..end]`.
pub fn parse_unsigned_in(s: &[u8], start: usize, end: usize, max: u64) -> (r: Option<u64>)
    requires
        start <= end <= s.len(),
    ensures
        r == (match parse_unsigned(s@.subrange(start as int, end as int)) {
            Some(v) => if v <= max {
                Some(v as u64)
            } else {
                None
            },
            None => None,
        }),
{
    let ghost t = s@.subrange(start as int, end as int);
    if start < end && s[start] == 0x2B {
        assert(t.drop_first() =~= s@.subrange(start + 1, end as int));
        digits_in(s, start + 1, end, max)
    } else {
        digits_in(s, start, end, max)
    }
}

/// `str::parse::<i16>` on the text `s[start..end]`.
pub fn parse_i16_in(s: &[u8], start: usize, end: usize) -> (r: Option<i16>)
    requires
        start <= end <= s.len(),
    ensures
        r == parse_i16(s@.subrange(start as int, end as int)),
{
    let ghost t = s@.subrange(start as int, end as int);
    if start < end && s[start] == 0x2D {
        assert(t.drop_first() =~= s@.subrange(start + 1, end as int));
        match digits_in(s, start + 1, end, 0x8000) {
            Some(v) => Some((0 - (v as i32)) as i16),
            None => None,
        }
    } else {
        match parse_unsigned_in(s, start, end, 0x7FFF) {
            Some(v) => Some(v as i16),
            None => None,
        }
    }
}

/// The length of the UTF-8 encoding of a `char::is_whitespace` character at
/// the start of `s`, or 0 when `s` does not start with one.
pub open spec fn leading_ws_len(s: Seq<u8>) -> int {
    if s.len() >= 1 && ((0x09 <= s[0] <= 0x0D) || s[0] == 0x20) {
        1
    } else if s.len() >= 2 && s[0] == 0xC2 && (s[1] == 0x85 || s[1] == 0xA0) {
        2
    } else if s.len() >= 3 && is_ws3(s[0], s[1], s[2]) {
        3
    } else {
        0
    }
}

/// The length of the UTF-8 encoding of a `char::is_whitespace` character at
/// the end of `s`, or 0 when `s` does not end with one.
pub open spec fn trailing_ws_len(s: Seq<u8>) -> int {
    let n = s.len() as int;
    if n >= 1 && ((0x09 <= s[n - 1] <= 0x0D) || s[n - 1] == 0x20) {
        1
    } else if n >= 2 && s[n - 2] == 0xC2 && (s[n - 1] == 0x85 || s[n - 1] == 0xA0) {
        2
    } else if n >= 3 && is_ws3(s[n - 3], s[n - 2], s[n - 1]) {
        3
    } else {
        0
    }
}

/// The three-byte encodings of U+1680, U+2000..=U+200A, U+2028, U+2029,
/// U+202F, U+205F and U+3000.
pub open spec fn is_ws3(a: u8, b: u8, c: u8) -> bool {
    ||| (a == 0xE1 && b == 0x9A && c == 0x80)
    ||| (a == 0xE2 && b == 0x80 && ((0x80 <= c <= 0x8A) || c == 0xA8 || c == 0xA9 || c == 0xAF))
    ||| (a == 0xE2 && b == 0x81 && c == 0x9F)
    ||| (a == 0xE3 && b == 0x80 && c == 0x80)
}

/// `str::trim_start` on the UTF-8 text `s`.
pub open spec fn trim_start(s: Seq<u8>) -> Seq<u8>
    decreases s.len(),
{
    let k = leading_ws_len(s);
    if k == 0 {
        s
    } else {
        trim_start(s.skip(k))
    }
}

/// `str::trim_end` on the UTF-8 text `s`.
pub open spec fn trim_end(s: Seq<u8>) -> Seq<u8>
    decreases s.len(),
{
    let k = trailing_ws_len(s);
    if k == 0 {
        s
    } else {
        trim_end(s.take(s.len() - k))
    }
}

/// `str::trim` on the UTF-8 text `s`.
pub open spec fn trim(s: Seq<u8>) -> Seq<u8> {
    trim_end(trim_start(s))
}

fn ws3(a: u8, b: u8, c: u8) -> (r: bool)
    ensures
        r == is_ws3(a, b, c),
{
    (a == 0xE1 && b == 0x9A && c == 0x80) || (a == 0xE2 && b == 0x80 && ((0x80 <= c && c
        <= 0x8A) || c == 0xA8 || c == 0xA9 || c == 0xAF)) || (a == 0xE2 && b == 0x81 && c == 0x9F)
        || (a == 0xE3 && b == 0x80 && c == 0x80)
}

/// The bounds of `str::trim` applied to `s[start..end]`.
pub fn trim_in(s: &[u8], start: usize, end: usize) -> (r: (usize, usize))
    requires
        start <= end <= s.len(),
    ensures
        start <= r.0 <= r.1 <= end,
        s@.subrange(r.0 as int, r.1 as int) == trim(s@.subrange(start as int, end as int)),
{
    let mut a: usize = start;
    while a < end
        invariant
            start <= a <= end <= s.len(),
            trim_start(s@.subrange(a as int, end as int)) == trim_start(
                s@.subrange(start as int, end as int),
            ),
        ensures
            start <= a <= end,
            trim_start(s@.subrange(a as int, end as int)) == trim_start(
                s@.subrange(start as int, end as int),
            ),
            a == end || leading_ws_len(s@.subrange(a as int, end as int)) == 0,
        decreases end - a,
    {
        let ghost t = s@.subrange(a as int, end as int);
        let n = end - a;
        let k: usize = if 0x09 <= s[a] && s[a] <= 0x0D || s[a] == 0x20 {
            1
        } else if n >= 2 && s[a] == 0xC2 && (s[a + 1] == 0x85 || s[a + 1] == 0xA0) {
            2
        } else if n >= 3 && ws3(s[a], s[a + 1], s[a + 2]) {
            3
        } else {
            0
        };
        assert(k == leading_ws_len(t));
        if k == 0 {
            break ;
        }
        assert(t.skip(k as int) =~= s@.subrange(a + k, end as int));
        a = a + k;
    }
    let ghost mid = s@.subrange(a as int, end as int);
    assert(trim_start(mid) == mid) by {
        if a < end {
        } else {
            assert(mid.len() == 0);
        }
    }
    let mut b: usize = end;
    while b > a
        invariant
            start <= a <= b <= end <= s.len(),
            mid == s@.subrange(a as int, end as int),
            trim_end(s@.subrange(a as int, b as int)) == trim_end(mid),
        ensures
            start <= a <= b <= end,
            trim_end(s@.subrange(a as int, b as int)) == trim_end(mid),
            a == b || trailing_ws_len(s@.subrange(a as int, b as int)) == 0,
        decreases b - a,
    {
        let ghost t = s@.subrange(a as int, b as int);
        let n = b - a;
        let k: usize = if 0x09 <= s[b - 1] && s[b - 1] <= 0x0D || s[b - 1] == 0x20 {
            1
        } else if n >= 2 && s[b - 2] == 0xC2 && (s[b - 1] == 0x85 || s[b - 1] == 0xA0) {
            2
        } else if n >= 3 && ws3(s[b - 3], s[b - 2], s[b - 1]) {
            3
        } else {
            0
        };
        assert(k == trailing_ws_len(t));
        if k == 0 {
            break ;
        }
        assert(t.take(t.len() - k) =~= s@.subrange(a as int, b - k));
        b = b - k;
    }
    let ghost fin = s@.subrange(a as int, b as int);
    assert(trim_end(fin) == fin) by {
        if a < b {
        } else {
            assert(fin.len() == 0);
        }
    }
    (a, b)
}

/// Lengths of the UTF-8 encoding of the scalar at the start of `t`, or 0 when
/// `t` does not start with a well-formed encoding (Unicode Table 3-7).
pub open spec fn scalar_width(t: Seq<u8>) -> int {
    if t.len() == 0 {
        0
    } else if t[0] <= 0x7F {
        1
    } else if 0xC2 <= t[0] <= 0xDF {
        if t.len() >= 2 && is_continuation_byte(t[1]) {
            2
        } else {
            0
        }
    } else if 0xE0 <= t[0] <= 0xEF {
        let lo: u8 = if t[0] == 0xE0 {
            0xA0
        } else {
            0x80
        };
        let hi: u8 = if t[0] == 0xED {
            0x9F
        } else {
            0xBF
        };
        if t.len() >= 3 && lo <= t[1] <= hi && is_continuation_byte(t[2]) {
            3
        } else {
            0
        }
    } else if 0xF0 <= t[0] <= 0xF4 {
        let lo: u8 = if t[0] == 0xF0 {
            0x90
        } else {
            0x80
        };
        let hi: u8 = if t[0] == 0xF4 {
            0x8F
        } else {
            0xBF
        };
        if t.len() >= 4 && lo <= t[1] <= hi && is_continuation_byte(t[2]) && is_continuation_byte(
            t[3],
        ) {
            4
        } else {
            0
        }
    } else {
        0
    }
}

proof fn lemma_cp1(b0: u8)
    by (bit_vector)
    requires
        b0 <= 0x7F,
    ensures
        ((b0 & 0x7F) as u32) < 0x80,
{
}

proof fn lemma_cp2(b0: u8, b1: u8)
    by (bit_vector)
    requires
        0xC0 <= b0 <= 0xDF,
        0x80 <= b1 <= 0xBF,
    ensures
        ((((b0 & 0x1F) as u32) << 6) | ((b1 & 0x3F) as u32) >= 0x80) <==> b0 >= 0xC2,
        ((((b0 & 0x1F) as u32) << 6) | ((b1 & 0x3F) as u32)) < 0x800,
{
}

proof fn lemma_cp3(b0: u8, b1: u8, b2: u8)
    by (bit_vector)
    requires
        0xE0 <= b0 <= 0xEF,
        0x80 <= b1 <= 0xBF,
        0x80 <= b2 <= 0xBF,
    ensures
        (((((b0 & 0x0F) as u32) << 12) | (((b1 & 0x3F) as u32) << 6) | ((b2 & 0x3F) as u32))
            >= 0x800) <==> (b0 != 0xE0 || b1 >= 0xA0),
        (0xD800 <= ((((b0 & 0x0F) as u32) << 12) | (((b1 & 0x3F) as u32) << 6) | ((b2
            & 0x3F) as u32)) <= 0xDFFF) <==> (b0 == 0xED && b1 >= 0xA0),
{
}

proof fn lemma_cp4(b0: u8, b1: u8, b2: u8, b3: u8)
    by (bit_vector)
    requires
        0xF0 <= b0 <= 0xF7,
        0x80 <= b1 <= 0xBF,
        0x80 <= b2 <= 0xBF,
        0x80 <= b3 <= 0xBF,
    ensures
        (0x10000 <= ((((b0 & 0x07) as u32) << 18) | (((b1 & 0x3F) as u32) << 12) | (((b2
            & 0x3F) as u32) << 6) | ((b3 & 0x3F) as u32)) <= 0x10FFFF) <==> ((b0 == 0xF0 && b1
            >= 0x90) || (0xF1 <= b0 <= 0xF3) || (b0 == 0xF4 && b1 <= 0x8F)),
{
}

/// The byte ranges of Unicode Table 3-7 describe exactly vstd's notion of a
/// well-formed first scalar.
pub proof fn lemma_scalar_width(t: Seq<u8>)
    requires
        t.len() > 0,
    ensures
        scalar_width(t) == 0 <==> !valid_first_scalar(t),
        scalar_width(t) != 0 ==> scalar_width(t) == length_of_first_scalar(t),
{
    let b0 = t[0];
    if b0 <= 0x7F {
        lemma_cp1(b0);
    } else if 0xC0 <= b0 <= 0xDF {
        if t.len() >= 2 && is_continuation_byte(t[1]) {
            lemma_cp2(b0, t[1]);
        }
    } else if 0xE0 <= b0 <= 0xEF {
        if t.len() >= 3 && is_continuation_byte(t[1]) && is_continuation_byte(t[2]) {
            lemma_cp3(b0, t[1], t[2]);
        }
    } else if 0xF0 <= b0 <= 0xF7 {
        if t.len() >= 4 && is_continuation_byte(t[1]) && is_continuation_byte(t[2])
            && is_continuation_byte(t[3]) {
            lemma_cp4(b0, t[1], t[2], t[3]);
        }
    }
}

fn cont(b: u8) -> (r: bool)
    ensures
        r == is_continuation_byte(b),
{
    0x80 <= b && b <= 0xBF
}

fn scalar_width_at(s: &[u8], i: usize) -> (w: usize)
    requires
        i < s.len(),
    ensures
        w == scalar_width(s@.subrange(i as int, s.len() as int)),
{
    let ghost t = s@.subrange(i as int, s.len() as int);
    let n = s.len() - i;
    let b0 = s[i];
    if b0 <= 0x7F {
        1
    } else if 0xC2 <= b0 && b0 <= 0xDF {
        if n >= 2 && cont(s[i + 1]) {
            2
        } else {
            0
        }
    } else if 0xE0 <= b0 && b0 <= 0xEF {
        let lo: u8 = if b0 == 0xE0 {
            0xA0
        } else {
            0x80
        };
        let hi: u8 = if b0 == 0xED {
            0x9F
        } else {
            0xBF
        };
        if n >= 3 && lo <= s[i + 1] && s[i + 1] <= hi && cont(s[i + 2]) {
            3
        } else {
            0
        }
    } else if 0xF0 <= b0 && b0 <= 0xF4 {
        let lo: u8 = if b0 == 0xF0 {
            0x90
        } else {
            0x80
        };
        let hi: u8 = if b0 == 0xF4 {
            0x8F
        } else {
            0xBF
        };
        if n >= 4 && lo <= s[i + 1] && s[i + 1] <= hi && cont(s[i + 2]) && cont(s[i + 3]) {
            4
        } else {
            0
        }
    } else {
        0
    }
}

/// Whether `s` is well-formed UTF-8, as `str::from_utf8` decides it.
pub fn utf8_valid(s: &[u8]) -> (r: bool)
    ensures
        r == valid_utf8(s@),
{
    let mut i: usize = 0;
    while i < s.len()
        invariant
            i <= s.len(),
            partial_valid_utf8(s@, i as int),
        decreases s.len() - i,
    {
        let ghost t = s@.subrange(i as int, s.len() as int);
        let w = scalar_width_at(s, i);
        proof {
            lemma_scalar_width(t);
        }
        if w == 0 {
            proof {
                assert(!valid_utf8(t));
                partial_valid_partial_invalid_utf8(s@, i as int);
            }
            return false;
        }
        proof {
            partial_valid_utf8_extend(s@, i as int);
        }
        i = i + w;
    }
    assert(s@.subrange(0, s@.len() as int) =~= s@);
    true
}

/// Decimal digits of `n`, without leading zeros (`0` for zero).
pub open spec fn dec(n: nat) -> Seq<u8>
    decreases n,
{
    if n < 10 {
        seq![(n + 0x30) as u8]
    } else {
        dec(n / 10).push((n % 10 + 0x30) as u8)
    }
}

/// `n` formatted with `{:0w$}`: its digits, after zeros up to width `w`.
pub open spec fn zero_pad(n: nat, w: nat) -> Seq<u8> {
    let d = dec(n);
    if d.len() < w {
        Seq::new((w - d.len()) as nat, |i: int| 0x30u8) + d
    } else {
        d
    }
}

/// `v` formatted with `{:0w$}`: the sign comes first and counts in the width.
pub open spec fn zero_pad_signed(v: int, w: nat) -> Seq<u8> {
    if v < 0 {
        seq![0x2Du8] + zero_pad((-v) as nat, if w > 0 {
            (w - 1) as nat
        } else {
            0
        })
    } else {
        zero_pad(v as nat, w)
    }
}

fn push_dec(buf: &mut Vec<u8>, n: u32)
    ensures
        final(buf)@ == old(buf)@ + dec(n as nat),
    decreases n,
{
    if n >= 10 {
        push_dec(buf, n / 10);
    }
    buf.push((n % 10) as u8 + 0x30);
    proof {
        if n >= 10 {
            assert(dec(n as nat) == dec((n / 10) as nat).push((n % 10 + 0x30) as u8));
        } else {
            assert(dec(n as nat) =~= seq![(n + 0x30) as u8]);
        }
    }
}

fn dec_len(n: u32) -> (r: usize)
    ensures
        r == dec(n as nat).len(),
        r <= 10,
    decreases n,
{
    if n >= 10 {
        proof {
            assert(dec(n as nat).len() == dec((n / 10) as nat).len() + 1);
        }
        let k = dec_len(n / 10);
        proof {
            if n / 10 < 10 {
            }
            lemma_dec_len_bound(n as nat);
        }
        k + 1
    } else {
        1
    }
}

proof fn lemma_dec_len_bound(n: nat)
    requires
        n <= 0xFFFF_FFFF,
    ensures
        dec(n).len() <= 10,
{
    lemma_dec_len(n);
    if n >= 1_000_000_000 {
    }
}

/// `dec(n)` has `k` digits where `10^(k-1) <= n < 10^k`; stated as bounds.
pub proof fn lemma_dec_len(n: nat)
    ensures
        dec(n).len() >= 1,
        n < 10 ==> dec(n).len() == 1,
        10 <= n < 100 ==> dec(n).len() == 2,
        100 <= n < 1000 ==> dec(n).len() == 3,
        1000 <= n < 10000 ==> dec(n).len() == 4,
        10000 <= n < 100000 ==> dec(n).len() == 5,
        n < 100 ==> dec(n).len() <= 2,
        n < 1000 ==> dec(n).len() <= 3,
        n < 10000 ==> dec(n).len() <= 4,
        n < 100000 ==> dec(n).len() <= 5,
        n < 1000000 ==> dec(n).len() <= 6,
        n < 10000000 ==> dec(n).len() <= 7,
        n < 100000000 ==> dec(n).len() <= 8,
        n < 1000000000 ==> dec(n).len() <= 9,
        n < 10000000000 ==> dec(n).len() <= 10,
    decreases n,
{
    if n >= 10 {
        lemma_dec_len(n / 10);
    }
}

/// Appends `n` formatted with `{:0w$}`.
pub fn push_zero_padded(buf: &mut Vec<u8>, n: u32, w: usize)
    ensures
        final(buf)@ == old(buf)@ + zero_pad(n as nat, w as nat),
{
    let k = dec_len(n);
    let ghost start = buf@;
    if k < w {
        let mut i: usize = 0;
        while i < w - k
            invariant
                k < w,
                i <= w - k,
                buf@ == start + Seq::new(i as nat, |j: int| 0x30u8),
            decreases w - k - i,
        {
            buf.push(0x30);
            i = i + 1;
            assert(buf@ =~= start + Seq::new(i as nat, |j: int| 0x30u8));
        }
        let ghost mid = buf@;
        push_dec(buf, n);
        assert(buf@ =~= start + zero_pad(n as nat, w as nat));
    } else {
        push_dec(buf, n);
    }
}

/// Appends `v` formatted with `{:0w$}`.
pub fn push_zero_padded_signed(buf: &mut Vec<u8>, v: i32, w: usize)
    ensures
        final(buf)@ == old(buf)@ + zero_pad_signed(v as int, w as nat),
{
    let ghost start = buf@;
    if v < 0 {
        buf.push(0x2D);
        let m: u32 = if v == i32::MIN {
            0x8000_0000u32
        } else {
            (0 - v) as u32
        };
        let w2: usize = if w > 0 {
            w - 1
        } else {
            0
        };
        push_zero_padded(buf, m, w2);
        assert(buf@ =~= start + zero_pad_signed(v as int, w as nat));
    } else {
        push_zero_padded(buf, v as u32, w);
    }
}

/// Appends every byte of `s`.
pub fn push_all(buf: &mut Vec<u8>, s: &[u8])
    ensures
        final(buf)@ == old(buf)@ + s@,
{
    let ghost start = buf@;
    let mut i: usize = 0;
    while i < s.len()
        invariant
            i <= s.len(),
            buf@ == start + s@.take(i as int),
        decreases s.len() - i,
    {
        buf.push(s[i]);
        i = i + 1;
        assert(buf@ =~= start + s@.take(i as int));
    }
    assert(s@.take(s.len() as int) =~= s@);
}

/// Index of the first `c` in `s`.
pub open spec fn find(s: Seq<u8>, c: u8) -> Option<int>
    decreases s.len(),
{
    if s.len() == 0 {
        None
    } else if s[0] == c {
        Some(0)
    } else {
        match find(s.drop_first(), c) {
            Some(i) => Some(i + 1),
            None => None,
        }
    }
}

/// Index of the last `c` in `s`.
pub open spec fn rfind(s: Seq<u8>, c: u8) -> Option<int>
    decreases s.len(),
{
    if s.len() == 0 {
        None
    } else if s.last() == c {
        Some(s.len() - 1)
    } else {
        rfind(s.drop_last(), c)
    }
}

/// `find` gives the first occurrence, and `None` exactly when there is none.
pub proof fn lemma_find(s: Seq<u8>, c: u8)
    ensures
        find(s, c) matches Some(i) ==> 0 <= i < s.len() && s[i] == c && forall|j: int|
            0 <= j < i ==> s[j] != c,
        find(s, c) is None ==> forall|j: int| 0 <= j < s.len() ==> s[j] != c,
    decreases s.len(),
{
    if s.len() > 0 && s[0] != c {
        lemma_find(s.drop_first(), c);
        if let Some(i) = find(s.drop_first(), c) {
            assert forall|j: int| 0 <= j < i + 1 implies s[j] != c by {
                if j > 0 {
                    assert(s[j] == s.drop_first()[j - 1]);
                }
            }
        } else {
            assert forall|j: int| 0 <= j < s.len() implies s[j] != c by {
                if j > 0 {
                    assert(s[j] == s.drop_first()[j - 1]);
                }
            }
        }
    }
}

/// `rfind` gives the last occurrence, and `None` exactly when there is none.
pub proof fn lemma_rfind(s: Seq<u8>, c: u8)
    ensures
        rfind(s, c) matches Some(i) ==> 0 <= i < s.len() && s[i] == c && forall|j: int|
            i < j < s.len() ==> s[j] != c,
        rfind(s, c) is None ==> forall|j: int| 0 <= j < s.len() ==> s[j] != c,
    decreases s.len(),
{
    if s.len() > 0 && s.last() != c {
        lemma_rfind(s.drop_last(), c);
        assert forall|j: int| 0 <= j < s.len() - 1 implies s[j] == s.drop_last()[j] by {}
    }
}

/// The only index that satisfies the first-occurrence property is `find`'s.
pub proof fn lemma_find_unique(s: Seq<u8>, c: u8, i: int)
    requires
        0 <= i <= s.len(),
        i < s.len() ==> s[i] == c,
        forall|j: int| 0 <= j < i ==> s[j] != c,
    ensures
        find(s, c) == (if i < s.len() {
            Some(i)
        } else {
            None::<int>
        }),
{
    lemma_find(s, c);
}

/// The only index that satisfies the last-occurrence property is `rfind`'s.
pub proof fn lemma_rfind_unique(s: Seq<u8>, c: u8, i: int)
    requires
        -1 <= i < s.len(),
        i >= 0 ==> s[i] == c,
        forall|j: int| i < j < s.len() ==> s[j] != c,
    ensures
        rfind(s, c) == (if i >= 0 {
            Some(i)
        } else {
            None::<int>
        }),
{
    lemma_rfind(s, c);
}

/// Index of the first `c` in `s[start..end]`, counted from `start`.
pub fn find_in(s: &[u8], start: usize, end: usize, c: u8) -> (r: Option<usize>)
    requires
        start <= end <= s.len(),
    ensures
        r == (match find(s@.subrange(start as int, end as int), c) {
            Some(i) => Some((i + start) as usize),
            None => None,
        }),
{
    let ghost t = s@.subrange(start as int, end as int);
    let mut i: usize = start;
    while i < end
        invariant
            start <= i <= end <= s.len(),
            t == s@.subrange(start as int, end as int),
            forall|j: int| 0 <= j < i - start ==> t[j] != c,
        decreases end - i,
    {
        if s[i] == c {
            proof {
                lemma_find_unique(t, c, i - start);
            }
            return Some(i);
        }
        i = i + 1;
    }
    proof {
        lemma_find_unique(t, c, t.len() as int);
    }
    None
}

/// Index of the last `c` in `s[start..end]`, counted from `start`.
pub fn rfind_in(s: &[u8], start: usize, end: usize, c: u8) -> (r: Option<usize>)
    requires
        start <= end <= s.len(),
    ensures
        r == (match rfind(s@.subrange(start as int, end as int), c) {
            Some(i) => Some((i + start) as usize),
            None => None,
        }),
{
    let ghost t = s@.subrange(start as int, end as int);
    let mut i: usize = end;
    while i > start
        invariant
            start <= i <= end <= s.len(),
            t == s@.subrange(start as int, end as int),
            forall|j: int| i - start <= j < t.len() ==> t[j] != c,
        decreases i - start,
    {
        if s[i - 1] == c {
            proof {
                lemma_rfind_unique(t, c, i - 1 - start);
            }
            return Some(i - 1);
        }
        i = i - 1;
    }
    proof {
        lemma_rfind_unique(t, c, -1);
    }
    None
}

/// A copy of `s[start..end]`.
pub fn copy_range(s: &[u8], start: usize, end: usize) -> (r: Vec<u8>)
    requires
        start <= end <= s.len(),
    ensures
        r@ == s@.subrange(start as int, end as int),
{
    vstd::slice::slice_to_vec(&s[start..end])
}

/// Appends the UTF-8 encoding of `c`, as `write!(buf, "{}", c)` does.
pub fn push_char(buf: &mut Vec<u8>, c: char)
    ensures
        final(buf)@ == old(buf)@ + encode_scalar(c as u32),
{
    let ghost start = buf@;
    let v = c as u32;
    if v <= 0x7F {
        buf.push((v & 0x7F) as u8);
    } else if v <= 0x7FF {
        buf.push(0xC0 | ((v >> 6) & 0x1F) as u8);
        buf.push(0x80 | (v & 0x3F) as u8);
    } else if v <= 0xFFFF {
        buf.push(0xE0 | ((v >> 12) & 0x0F) as u8);
        buf.push(0x80 | ((v >> 6) & 0x3F) as u8);
        buf.push(0x80 | (v & 0x3F) as u8);
    } else {
        buf.push(0xF0 | ((v >> 18) & 0x7) as u8);
        buf.push(0x80 | ((v >> 12) & 0x3F) as u8);
        buf.push(0x80 | ((v >> 6) & 0x3F) as u8);
        buf.push(0x80 | (v & 0x3F) as u8);
    }
    proof {
        broadcast use vstd::utf8::char_is_scalar;
        assert(is_scalar(c as u32));
    }
    assert(buf@ =~= start + encode_scalar(c as u32));
}

/// The digits of `n` are digits, and read back as `n`.
pub proof fn lemma_dec(n: nat)
    ensures
        all_digits(dec(n)),
        digits_value(dec(n)) == n,
        dec(n).len() > 0,
    decreases n,
{
    if n < 10 {
        let d = dec(n);
        assert(d.drop_last() =~= Seq::<u8>::empty());
        assert(digits_value(d.drop_last()) == 0);
        assert(d.last() == (n + 0x30) as u8);
        assert((d.last() - 0x30) as nat == n);
        assert(digits_value(d) == digits_value(d.drop_last()) * 10 + (d.last() - 0x30) as nat);
    }
    if n >= 10 {
        lemma_dec(n / 10);
        let d = dec(n);
        assert(d.drop_last() =~= dec(n / 10));
        assert(d.last() == (n % 10 + 0x30) as u8);
        assert((d.last() - 0x30) as nat == n % 10);
        assert((n / 10) * 10 + n % 10 == n);
        assert(digits_value(d) == digits_value(dec(n / 10)) * 10 + (d.last() - 0x30) as nat);
        assert forall|i: int| 0 <= i < d.len() implies #[trigger] is_digit(d[i]) by {
            if i < d.len() - 1 {
                assert(d[i] == dec(n / 10)[i]);
            }
        }
    }
}

/// Leading zeros do not change the value of a run of digits.
pub proof fn lemma_zeros_value(k: nat, d: Seq<u8>)
    ensures
        digits_value(Seq::new(k, |i: int| 0x30u8) + d) == digits_value(d),
    decreases d.len(), k,
{
    let z = Seq::new(k, |i: int| 0x30u8);
    if d.len() > 0 {
        assert((z + d).drop_last() =~= z + d.drop_last());
        lemma_zeros_value(k, d.drop_last());
    } else {
        assert(z + d =~= z);
        if k > 0 {
            assert(z.drop_last() =~= Seq::new((k - 1) as nat, |i: int| 0x30u8));
            lemma_zeros_value((k - 1) as nat, d);
            assert(Seq::new((k - 1) as nat, |i: int| 0x30u8) + d =~= Seq::new(
                (k - 1) as nat,
                |i: int| 0x30u8,
            ));
        }
    }
}

/// `zero_pad(n, w)` is a run of digits worth `n`, `w` long when `n` fits.
pub proof fn lemma_zero_pad(n: nat, w: nat)
    ensures
        all_digits(zero_pad(n, w)),
        digits_value(zero_pad(n, w)) == n,
        zero_pad(n, w).len() > 0,
        dec(n).len() <= w ==> zero_pad(n, w).len() == w,
{
    lemma_dec(n);
    let d = dec(n);
    if d.len() < w {
        let z = Seq::new((w - d.len()) as nat, |i: int| 0x30u8);
        lemma_zeros_value((w - d.len()) as nat, d);
        assert forall|i: int| 0 <= i < (z + d).len() implies #[trigger] is_digit((z + d)[i]) by {
            if i >= z.len() {
                assert((z + d)[i] == d[i - z.len()]);
            }
        }
    }
}

/// Text made only of ASCII bytes is UTF-8.
pub proof fn lemma_ascii_valid(s: Seq<u8>)
    requires
        forall|i: int| 0 <= i < s.len() ==> #[trigger] s[i] <= 0x7F,
    ensures
        valid_utf8(s),
    decreases s.len(),
{
    if s.len() > 0 {
        lemma_cp1(s[0]);
        assert(pop_first_scalar(s) =~= s.drop_first());
        assert forall|i: int| 0 <= i < s.drop_first().len() implies #[trigger] s.drop_first()[i]
            <= 0x7F by {
            assert(s.drop_first()[i] == s[i + 1]);
        }
        lemma_ascii_valid(s.drop_first());
    }
}

/// Text that starts with an ASCII byte that is not white space and ends with
/// a digit is its own trim.
pub proof fn lemma_trim_noop(s: Seq<u8>)
    requires
        s.len() > 0,
        s[0] <= 0x7F,
        !(0x09 <= s[0] <= 0x0D),
        s[0] != 0x20,
        is_digit(s.last()),
    ensures
        trim(s) == s,
{
    assert(leading_ws_len(s) == 0);
    assert(trailing_ws_len(s) == 0);
}


/// `str::trim`, `str::trim_start` and `str::trim_end` never make text
/// longer.
pub proof fn lemma_trim_len(s: Seq<u8>)
    ensures
        trim_start(s).len() <= s.len(),
        trim_end(s).len() <= s.len(),
        trim(s).len() <= s.len(),
{
    lemma_trim_end_len(s);
    lemma_trim_start_len(s);
    lemma_trim_end_len(trim_start(s));
}

proof fn lemma_trim_start_len(s: Seq<u8>)
    ensures
        trim_start(s).len() <= s.len(),
    decreases s.len(),
{
    let k = leading_ws_len(s);
    if k != 0 {
        lemma_trim_start_len(s.skip(k));
    }
}

proof fn lemma_trim_end_len(s: Seq<u8>)
    ensures
        trim_end(s).len() <= s.len(),
    decreases s.len(),
{
    let k = trailing_ws_len(s);
    if k != 0 {
        lemma_trim_end_len(s.take(s.len() - k));
    }
}

/// Digits of up to `n` places, `n` from one to five, are worth less than
/// `10^n`.
pub proof fn lemma_digits_bound(d: Seq<u8>)
    requires
        all_digits(d),
    ensures
        d.len() <= 1 ==> digits_value(d) <= 9,
        d.len() <= 2 ==> digits_value(d) <= 99,
        d.len() <= 3 ==> digits_value(d) <= 999,
        d.len() <= 4 ==> digits_value(d) <= 9999,
        d.len() <= 5 ==> digits_value(d) <= 99999,
    decreases d.len(),
{
    if d.len() > 0 {
        assert(is_digit(d[d.len() - 1]));
        assert(all_digits(d.drop_last())) by {
            assert forall|i: int| 0 <= i < d.drop_last().len() implies #[trigger] is_digit(
                d.drop_last()[i],
            ) by {
                assert(d.drop_last()[i] == d[i]);
            }
        }
        lemma_digits_bound(d.drop_last());
    }
}

/// A number parsed from text of `n` bytes, `n` at most five, has at most
/// `n` digits.
pub proof fn lemma_parse_unsigned_bound(s: Seq<u8>)
    ensures
        parse_unsigned(s) matches Some(v) ==> (s.len() <= 2 ==> v <= 99) && (s.len() <= 3 ==> v
            <= 999) && (s.len() <= 5 ==> v <= 99999),
{
    let d = if s.len() > 0 && s[0] == 0x2B {
        s.drop_first()
    } else {
        s
    };
    if d.len() > 0 && all_digits(d) {
        lemma_digits_bound(d);
    }
}

/// A signed number parsed from three bytes lies in `-99..=999`.
pub proof fn lemma_parse_signed_bound(s: Seq<u8>)
    requires
        s.len() <= 3,
    ensures
        parse_signed(s) matches Some(v) ==> -99 <= v <= 999,
{
    lemma_parse_unsigned_bound(s);
    if s.len() > 0 && s[0] == 0x2D {
        let d = s.drop_first();
        if d.len() > 0 && all_digits(d) {
            lemma_digits_bound(d);
        }
    }
}

} // verus!
