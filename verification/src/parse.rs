//! Character classification and verified numeric literal parsers.
//!
//! Chart text is scanned as a sequence of `char`s. The parsers here state
//! their grammars exactly: unsigned integers in a given radix (with the
//! optional leading sign that the standard library's `from_str_radix`
//! accepts), and plain decimal literals (sign, digits, at most one dot)
//! evaluated as exact rationals.

use vstd::prelude::*;

use crate::rat::{in_i64, Rat};

verus! {

/// The Unicode `White_Space` code points, the set `char::is_whitespace`
/// recognizes.
pub open spec fn is_ws(c: char) -> bool {
    let u = c as u32;
    (9 <= u && u <= 13) || u == 0x20 || u == 0x85 || u == 0xa0 || u == 0x1680 || (0x2000 <= u
        && u <= 0x200a) || u == 0x2028 || u == 0x2029 || u == 0x202f || u == 0x205f || u == 0x3000
}

/// Whitespace test over the same set as [`is_ws`].
pub fn is_ws_char(c: char) -> (r: bool)
    ensures
        r == is_ws(c),
{
    let u = c as u32;
    (9 <= u && u <= 13) || u == 0x20 || u == 0x85 || u == 0xa0 || u == 0x1680 || (0x2000 <= u
        && u <= 0x200a) || u == 0x2028 || u == 0x2029 || u == 0x202f || u == 0x205f || u == 0x3000
}

/// Digit value of `c` in radices up to 36 (`0-9`, `a-z`, `A-Z`), or 99
/// for a character that is a digit in no radix.
pub open spec fn digit_val(c: char) -> int {
    let u = c as u32;
    if 48 <= u && u <= 57 {
        u - 48
    } else if 97 <= u && u <= 122 {
        u - 87
    } else if 65 <= u && u <= 90 {
        u - 55
    } else {
        99
    }
}

/// `c` is a digit of the given radix.
pub open spec fn is_digit(c: char, radix: int) -> bool {
    digit_val(c) < radix
}

/// `c` is an ASCII letter or digit.
pub open spec fn is_alnum(c: char) -> bool {
    digit_val(c) < 36
}

/// `c` may appear in a header name: an ASCII letter, digit or underscore.
pub open spec fn is_word(c: char) -> bool {
    is_alnum(c) || c == '_'
}

/// Executable form of [`digit_val`].
pub fn digit_val_of(c: char) -> (v: u32)
    ensures
        v as int == digit_val(c),
{
    let u = c as u32;
    if 48 <= u && u <= 57 {
        u - 48
    } else if 97 <= u && u <= 122 {
        u - 87
    } else if 65 <= u && u <= 90 {
        u - 55
    } else {
        99
    }
}

/// Executable form of [`is_word`].
pub fn is_word_char(c: char) -> (r: bool)
    ensures
        r == is_word(c),
{
    digit_val_of(c) < 36 || c == '_'
}

/// Every character of `s` is a digit of the given radix.
pub open spec fn all_digits(s: Seq<char>, radix: int) -> bool {
    forall|i: int| 0 <= i < s.len() ==> is_digit(#[trigger] s[i], radix)
}

/// The value of a digit string in the given radix (meaningful when
/// `all_digits(s, radix)` holds).
pub open spec fn uint_val(s: Seq<char>, radix: int) -> int
    decreases s.len(),
{
    if s.len() == 0 {
        0
    } else {
        uint_val(s.drop_last(), radix) * radix + digit_val(s.last())
    }
}

/// Saturation bound used while accumulating digit values: one more than
/// any value the parsers accept.
pub open spec fn capped(x: int) -> int {
    if x < 0x1_0000_0000_0000_0000 {
        x
    } else {
        0x1_0000_0000_0000_0000
    }
}

proof fn lemma_mul_mono(v: int, r: int)
    by (nonlinear_arith)
    requires
        v >= 0,
        r >= 1,
    ensures
        v * r >= v,
{
}

proof fn lemma_mul_upper(v: int, r: int, a: int, b: int)
    by (nonlinear_arith)
    requires
        0 <= v <= a,
        0 <= r <= b,
    ensures
        v * r <= a * b,
{
}

proof fn lemma_uint_val_step(s: Seq<char>, i: int, radix: int)
    requires
        0 <= i < s.len(),
    ensures
        uint_val(s.take(i + 1), radix) == uint_val(s.take(i), radix) * radix + digit_val(s[i]),
{
    assert(s.take(i + 1).drop_last() =~= s.take(i));
    assert(s.take(i + 1).last() == s[i]);
}

/// Accumulate the digits of `s` in the given radix, saturating at
/// `2^64`. Returns `None` when `s` is empty or holds a non-digit.
fn accumulate_digits(s: &[char], radix: u32) -> (r: Option<u128>)
    requires
        2 <= radix <= 36,
    ensures
        r is Some <==> s@.len() > 0 && all_digits(s@, radix as int),
        r matches Some(v) ==> v as int == capped(uint_val(s@, radix as int)) && uint_val(
            s@,
            radix as int,
        ) >= 0,
{
    if s.len() == 0 {
        return None;
    }
    let mut acc: u128 = 0;
    let mut i: usize = 0;
    while i < s.len()
        invariant
            0 <= i <= s@.len(),
            2 <= radix <= 36,
            all_digits(s@.take(i as int), radix as int),
            acc as int == capped(uint_val(s@.take(i as int), radix as int)),
            uint_val(s@.take(i as int), radix as int) >= 0,
            acc <= 0x1_0000_0000_0000_0000,
        decreases s@.len() - i,
    {
        let d = digit_val_of(s[i]);
        if d >= radix {
            return None;
        }
        proof {
            lemma_uint_val_step(s@, i as int, radix as int);
            lemma_mul_mono(uint_val(s@.take(i as int), radix as int), radix as int);
            lemma_mul_upper(acc as int, radix as int, 0x1_0000_0000_0000_0000, 36);
        }
        let next: u128 = acc * radix as u128 + d as u128;
        if next >= 0x1_0000_0000_0000_0000 {
            acc = 0x1_0000_0000_0000_0000;
        } else {
            acc = next;
        }
        proof {
            let prev = uint_val(s@.take(i as int), radix as int);
            let cur = uint_val(s@.take(i + 1 as int), radix as int);
            assert(cur == prev * radix + digit_val(s@[i as int]));
            if prev >= 0x1_0000_0000_0000_0000 {
                lemma_mul_mono(prev, radix as int);
            }
        }
        i += 1;
    }
    proof {
        assert(s@.take(i as int) =~= s@);
    }
    Some(acc)
}

/// An unsigned integer literal as `from_str_radix` reads it for an
/// unsigned target: an optional single `+` or `-` sign, then one or more
/// digits of the radix; a negative literal is accepted only when its
/// value is zero; a value above `max` is rejected.
pub open spec fn spec_parse_uint(s: Seq<char>, radix: int, max: int) -> Option<int> {
    let neg = s.len() > 0 && s[0] == '-';
    let t = if s.len() > 0 && (s[0] == '-' || s[0] == '+') {
        s.skip(1)
    } else {
        s
    };
    if t.len() > 0 && all_digits(t, radix) {
        let v = uint_val(t, radix);
        if neg {
            if v == 0 {
                Some(0)
            } else {
                None
            }
        } else if v <= max {
            Some(v)
        } else {
            None
        }
    } else {
        None
    }
}

/// Parse an unsigned integer literal of at most `max <= u64::MAX - 1`.
pub fn parse_uint(s: &[char], radix: u32, max: u64) -> (r: Option<u64>)
    requires
        2 <= radix <= 36,
        max < 0xffff_ffff_ffff_ffff,
    ensures
        r is Some <==> spec_parse_uint(s@, radix as int, max as int) is Some,
        r matches Some(v) ==> Some(v as int) == spec_parse_uint(s@, radix as int, max as int),
{
    let ghost orig = s@;
    let (neg, t): (bool, &[char]) = if s.len() > 0 && (s[0] == '-' || s[0] == '+') {
        (s[0] == '-', slice_drop_first(s))
    } else {
        (false, s)
    };
    match accumulate_digits(t, radix) {
        None => None,
        Some(v) => {
            if neg {
                if v == 0 {
                    Some(0)
                } else {
                    None
                }
            } else if v <= max as u128 {
                Some(v as u64)
            } else {
                None
            }
        },
    }
}

/// The tail of a slice.
pub fn slice_drop_first<T>(s: &[T]) -> (r: &[T])
    requires
        s@.len() > 0,
    ensures
        r@ == s@.skip(1),
{
    let r = vstd::slice::slice_subrange(s, 1, s.len());
    proof {
        assert(r@ =~= s@.skip(1));
    }
    r
}

/// First index of `c` in `s`, or `s.len()` when absent.
pub open spec fn find_char(s: Seq<char>, c: char) -> int
    decreases s.len(),
{
    if s.len() == 0 {
        0
    } else if s[0] == c {
        0
    } else {
        1 + find_char(s.skip(1), c)
    }
}

pub proof fn lemma_find_char(s: Seq<char>, c: char)
    ensures
        0 <= find_char(s, c) <= s.len(),
        find_char(s, c) < s.len() ==> s[find_char(s, c)] == c,
        forall|j: int| 0 <= j < find_char(s, c) ==> s[j] != c,
    decreases s.len(),
{
    if s.len() > 0 && s[0] != c {
        lemma_find_char(s.skip(1), c);
        assert forall|j: int| 0 <= j < find_char(s, c) implies s[j] != c by {
            if j >= 1 {
                assert(s[j] == s.skip(1)[j - 1]);
            }
        }
    }
}

/// First index of a dot in `t`, or `t.len()` when there is none.
fn find_dot(t: &[char]) -> (r: usize)
    ensures
        r as int == find_char(t@, '.'),
{
    proof {
        lemma_find_char(t@, '.');
    }
    let mut i: usize = 0;
    while i < t.len()
        invariant
            0 <= i <= t@.len(),
            forall|j: int| 0 <= j < i ==> t@[j] != '.',
        decreases t@.len() - i,
    {
        if t[i] == '.' {
            proof {
                lemma_find_char(t@, '.');
                assert(t@[i as int] == '.');
                if find_char(t@, '.') < i as int {
                    assert(t@[find_char(t@, '.')] == '.');
                }
            }
            return i;
        }
        i += 1;
    }
    proof {
        lemma_find_char(t@, '.');
        if find_char(t@, '.') < t@.len() {
            assert(t@[find_char(t@, '.')] == '.');
        }
    }
    i
}

/// A plain decimal literal: an optional sign, digits with at most one
/// dot, at least one digit, its exact value representable over `i64`.
/// This is the numeric grammar for tempo, time-signature, scroll and
/// speed values; exponents and non-finite spellings are not part of it.
pub open spec fn spec_parse_decimal(s: Seq<char>) -> Option<Rat> {
    let neg = s.len() > 0 && s[0] == '-';
    let t = if s.len() > 0 && (s[0] == '-' || s[0] == '+') {
        s.skip(1)
    } else {
        s
    };
    let dot = find_char(t, '.');
    let ip = t.take(dot);
    let fp = if dot < t.len() {
        t.skip(dot + 1)
    } else {
        Seq::<char>::empty()
    };
    spec_decimal_value(neg, ip, fp)
}

/// The value of a sign and split digit strings, when they form a valid
/// literal that fits.
pub open spec fn spec_decimal_value(neg: bool, ip: Seq<char>, fp: Seq<char>) -> Option<Rat> {
    if ip.len() + fp.len() > 0 && all_digits(ip, 10) && all_digits(fp, 10) {
        let mag = uint_val(ip + fp, 10);
        let num = if neg {
            -mag
        } else {
            mag
        };
        let den = pow10(fp.len() as nat);
        if in_i64(num) && den <= i64::MAX {
            Some(Rat { num: num as i64, den: den as i64 })
        } else {
            None
        }
    } else {
        None
    }
}

/// Powers of ten.
pub open spec fn pow10(n: nat) -> int
    decreases n,
{
    if n == 0 {
        1
    } else {
        pow10((n - 1) as nat) * 10
    }
}

proof fn lemma_pow10_pos(n: nat)
    ensures
        pow10(n) >= 1,
    decreases n,
{
    if n > 0 {
        lemma_pow10_pos((n - 1) as nat);
        lemma_mul_mono(pow10((n - 1) as nat), 10);
    }
}

/// A parsed decimal literal is well-formed.
pub proof fn lemma_spec_parse_decimal_wf(s: Seq<char>)
    ensures
        spec_parse_decimal(s) matches Some(v) ==> v.wf(),
{
    let neg = s.len() > 0 && s[0] == '-';
    let t = if s.len() > 0 && (s[0] == '-' || s[0] == '+') {
        s.skip(1)
    } else {
        s
    };
    let dot = find_char(t, '.');
    let fp = if dot < t.len() {
        t.skip(dot + 1)
    } else {
        Seq::<char>::empty()
    };
    lemma_pow10_pos(fp.len());
}

/// Parse a plain decimal literal into an exact rational.
pub fn parse_decimal(s: &[char]) -> (r: Option<Rat>)
    ensures
        r == spec_parse_decimal(s@),
        r matches Some(v) ==> v.wf(),
{
    let (neg, t): (bool, &[char]) = if s.len() > 0 && (s[0] == '-' || s[0] == '+') {
        (s[0] == '-', slice_drop_first(s))
    } else {
        (false, s)
    };
    let dot: usize = find_dot(t);
    proof {
        lemma_find_char(t@, '.');
    }
    let ip: &[char] = vstd::slice::slice_subrange(t, 0, dot);
    let fp: &[char] = if dot < t.len() {
        vstd::slice::slice_subrange(t, dot + 1, t.len())
    } else {
        vstd::slice::slice_subrange(t, t.len(), t.len())
    };
    proof {
        assert(ip@ =~= t@.take(dot as int));
        if dot < t@.len() {
            assert(fp@ =~= t@.skip(dot as int + 1));
        } else {
            assert(fp@ =~= Seq::<char>::empty());
        }
    }
    decimal_from_parts(neg, ip, fp)
}

/// Evaluate the two digit strings of a decimal literal.
fn decimal_from_parts(neg: bool, ip: &[char], fp: &[char]) -> (r: Option<Rat>)
    ensures
        r == spec_decimal_value(neg, ip@, fp@),
        r matches Some(v) ==> v.wf(),
{
    if ip.len() == 0 && fp.len() == 0 {
        return None;
    }
    // magnitude: all digits of ip then fp, saturating at 2^64
    let mut acc: u128 = 0;
    let mut i: usize = 0;
    let ghost digits = ip@ + fp@;
    while i < ip.len()
        invariant
            0 <= i <= ip@.len(),
            digits == ip@ + fp@,
            all_digits(ip@.take(i as int), 10),
            acc as int == capped(uint_val(ip@.take(i as int), 10)),
            uint_val(ip@.take(i as int), 10) >= 0,
            acc <= 0x1_0000_0000_0000_0000,
        decreases ip@.len() - i,
    {
        let d = digit_val_of(ip[i]);
        if d >= 10 {
            return None;
        }
        proof {
            lemma_uint_val_step(ip@, i as int, 10);
            lemma_mul_mono(uint_val(ip@.take(i as int), 10), 10);
            lemma_mul_upper(acc as int, 10, 0x1_0000_0000_0000_0000, 10);
            if uint_val(ip@.take(i as int), 10) >= 0x1_0000_0000_0000_0000 {
                lemma_mul_mono(uint_val(ip@.take(i as int), 10), 10);
            }
        }
        let next: u128 = acc * 10 + d as u128;
        if next >= 0x1_0000_0000_0000_0000 {
            acc = 0x1_0000_0000_0000_0000;
        } else {
            acc = next;
        }
        i += 1;
    }
    proof {
        assert(ip@.take(ip@.len() as int) =~= ip@);
        assert(digits.take(ip@.len() as int) =~= ip@);
    }
    let mut k: usize = 0;
    while k < fp.len()
        invariant
            0 <= k <= fp@.len(),
            digits == ip@ + fp@,
            all_digits(ip@, 10),
            all_digits(fp@.take(k as int), 10),
            acc as int == capped(uint_val(digits.take(ip@.len() + k), 10)),
            uint_val(digits.take(ip@.len() + k), 10) >= 0,
            acc <= 0x1_0000_0000_0000_0000,
        decreases fp@.len() - k,
    {
        let d = digit_val_of(fp[k]);
        if d >= 10 {
            return None;
        }
        proof {
            lemma_uint_val_step(digits, ip@.len() + k, 10);
            assert(digits[ip@.len() + k] == fp@[k as int]);
            lemma_mul_mono(uint_val(digits.take(ip@.len() + k), 10), 10);
            lemma_mul_upper(acc as int, 10, 0x1_0000_0000_0000_0000, 10);
            if uint_val(digits.take(ip@.len() + k), 10) >= 0x1_0000_0000_0000_0000 {
                lemma_mul_mono(uint_val(digits.take(ip@.len() + k), 10), 10);
            }
        }
        let next: u128 = acc * 10 + d as u128;
        if next >= 0x1_0000_0000_0000_0000 {
            acc = 0x1_0000_0000_0000_0000;
        } else {
            acc = next;
        }
        k += 1;
    }
    proof {
        assert(digits.take(ip@.len() + fp@.len() as int) =~= digits);
    }
    // denominator: 10^fp.len(), saturating at 2^64
    let mut den: u128 = 1;
    let mut j: usize = 0;
    while j < fp.len()
        invariant
            0 <= j <= fp@.len(),
            den as int == capped(pow10(j as nat)),
            pow10(j as nat) >= 1,
            1 <= den <= 0x1_0000_0000_0000_0000,
        decreases fp@.len() - j,
    {
        proof {
            lemma_mul_mono(pow10(j as nat), 10);
            lemma_mul_upper(den as int, 10, 0x1_0000_0000_0000_0000, 10);
        }
        let next: u128 = den * 10;
        if next >= 0x1_0000_0000_0000_0000 {
            den = 0x1_0000_0000_0000_0000;
        } else {
            den = next;
        }
        j += 1;
    }
    proof {
        assert(fp@.take(fp@.len() as int) =~= fp@);
        assert(ip@.take(ip@.len() as int) =~= ip@);
    }
    // range checks against i64
    if den > i64::MAX as u128 {
        return None;
    }
    if neg {
        if acc > 0x8000_0000_0000_0000u128 {
            return None;
        }
        let num: i64 = (-(acc as i128)) as i64;
        Some(Rat { num, den: den as i64 })
    } else {
        if acc > i64::MAX as u128 {
            return None;
        }
        Some(Rat { num: acc as i64, den: den as i64 })
    }
}

} // verus!
