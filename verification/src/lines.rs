//! Line classification: the chart text grammar.
//!
//! Each line of the source is classified, in priority order, as a
//! control directive (`#RANDOM n`, `#ENDRANDOM`, `#IF v`, `#ENDIF`), a
//! time-signature line (`#mmm02:multiplier`), a grid line
//! (`#mmmCC:pairs`, optionally prefixed `#EXT #`), a header line
//! (`#NAME value`), or an unrecognized line, which is ignored.

use vstd::prelude::*;

use crate::parse::{
    all_digits, digit_val, digit_val_of, find_char, is_digit, is_word, is_word_char, is_ws,
    is_ws_char, parse_uint, spec_parse_decimal, spec_parse_uint, parse_decimal,
};
use crate::rat::Rat;

verus! {

/// End of the whitespace run starting at `from`: the first index at or
/// after `from` holding a non-whitespace character, or the length.
pub open spec fn ws_run_end(s: Seq<char>, from: int) -> int
    decreases s.len() - from,
    when 0 <= from <= s.len()
{
    if from >= s.len() {
        s.len() as int
    } else if is_ws(s[from]) {
        ws_run_end(s, from + 1)
    } else {
        from
    }
}

pub proof fn lemma_ws_run_end(s: Seq<char>, from: int)
    requires
        0 <= from <= s.len(),
    ensures
        from <= ws_run_end(s, from) <= s.len(),
        forall|j: int| from <= j < ws_run_end(s, from) ==> is_ws(#[trigger] s[j]),
        ws_run_end(s, from) < s.len() ==> !is_ws(s[ws_run_end(s, from)]),
    decreases s.len() - from,
{
    if from < s.len() && is_ws(s[from]) {
        lemma_ws_run_end(s, from + 1);
    }
}

/// End of the word-character run starting at `from`.
pub open spec fn word_run_end(s: Seq<char>, from: int) -> int
    decreases s.len() - from,
    when 0 <= from <= s.len()
{
    if from >= s.len() {
        s.len() as int
    } else if is_word(s[from]) {
        word_run_end(s, from + 1)
    } else {
        from
    }
}

pub proof fn lemma_word_run_end(s: Seq<char>, from: int)
    requires
        0 <= from <= s.len(),
    ensures
        from <= word_run_end(s, from) <= s.len(),
        forall|j: int| from <= j < word_run_end(s, from) ==> is_word(#[trigger] s[j]),
        word_run_end(s, from) < s.len() ==> !is_word(s[word_run_end(s, from)]),
    decreases s.len() - from,
{
    if from < s.len() && is_word(s[from]) {
        lemma_word_run_end(s, from + 1);
    }
}

/// Executable form of [`ws_run_end`].
pub fn skip_ws(s: &[char], from: usize) -> (r: usize)
    requires
        from <= s@.len(),
    ensures
        r as int == ws_run_end(s@, from as int),
{
    let mut i = from;
    while i < s.len()
        invariant
            from <= i <= s@.len(),
            ws_run_end(s@, from as int) == ws_run_end(s@, i as int),
        decreases s@.len() - i,
    {
        if !is_ws_char(s[i]) {
            return i;
        }
        i += 1;
    }
    i
}

/// Executable form of [`word_run_end`].
pub fn skip_word(s: &[char], from: usize) -> (r: usize)
    requires
        from <= s@.len(),
    ensures
        r as int == word_run_end(s@, from as int),
{
    let mut i = from;
    while i < s.len()
        invariant
            from <= i <= s@.len(),
            word_run_end(s@, from as int) == word_run_end(s@, i as int),
        decreases s@.len() - i,
    {
        if !is_word_char(s[i]) {
            return i;
        }
        i += 1;
    }
    i
}

/// All characters at or after `from` are digits of the radix.
pub fn check_digits_from(s: &[char], from: usize, radix: u32) -> (r: bool)
    requires
        from <= s@.len(),
        radix <= 36,
    ensures
        r == all_digits(s@.skip(from as int), radix as int),
{
    let mut i = from;
    while i < s.len()
        invariant
            from <= i <= s@.len(),
            forall|j: int| from <= j < i ==> is_digit(#[trigger] s@[j], radix as int),
        decreases s@.len() - i,
    {
        if digit_val_of(s[i]) >= radix {
            assert(!is_digit(s@[i as int], radix as int));
            assert(s@.skip(from as int)[i - from] == s@[i as int]);
            return false;
        }
        i += 1;
    }
    assert forall|j: int| 0 <= j < s@.skip(from as int).len() implies is_digit(
        #[trigger] s@.skip(from as int)[j],
        radix as int,
    ) by {
        assert(s@.skip(from as int)[j] == s@[j + from]);
    }
    true
}

/// What a line is, with its parsed payload. A `None` payload is a
/// malformed numeric literal, which fails the whole compilation.
#[derive(Clone, Copy, Debug)]
pub enum LineClass {
    /// `#RANDOM n`: draw a value in `1..=n` and push it.
    Random { value: Option<u32> },
    /// `#ENDRANDOM`: pop the random stack.
    EndRandom,
    /// `#IF v`: push "skip unless the top random draw equals `v`".
    If { value: Option<u32> },
    /// `#ENDIF`: pop the skip stack.
    EndIf,
    /// `#mmm02:multiplier`: set measure `mmm`'s time signature.
    TimeSig { measure: u32, mult: Option<Rat> },
    /// `#mmmCC:pairs`: grid objects; `vals_at` indexes the first pair
    /// character.
    Grid { measure: u32, channel: Option<u16>, vals_at: usize },
    /// `#NAME` or `#NAME value`: spans of the name and the value.
    Header { name_at: usize, name_end: usize, val_at: usize, val_end: usize },
    /// Anything else: ignored.
    Other,
}

/// `#RANDOM`, then whitespace, then digits to the end.
pub open spec fn random_match(s: Seq<char>) -> bool {
    &&& s.len() >= 7
    &&& s[0] == '#' && s[1] == 'R' && s[2] == 'A' && s[3] == 'N' && s[4] == 'D' && s[5] == 'O'
        && s[6] == 'M'
    &&& ws_run_end(s, 7) > 7
    &&& ws_run_end(s, 7) < s.len()
    &&& all_digits(s.skip(ws_run_end(s, 7)), 10)
}

/// Exactly `#ENDRANDOM`.
pub open spec fn endrandom_match(s: Seq<char>) -> bool {
    &&& s.len() == 10
    &&& s[0] == '#' && s[1] == 'E' && s[2] == 'N' && s[3] == 'D' && s[4] == 'R' && s[5] == 'A'
        && s[6] == 'N' && s[7] == 'D' && s[8] == 'O' && s[9] == 'M'
}

/// `#IF`, then whitespace, then digits to the end.
pub open spec fn if_match(s: Seq<char>) -> bool {
    &&& s.len() >= 3
    &&& s[0] == '#' && s[1] == 'I' && s[2] == 'F'
    &&& ws_run_end(s, 3) > 3
    &&& ws_run_end(s, 3) < s.len()
    &&& all_digits(s.skip(ws_run_end(s, 3)), 10)
}

/// Exactly `#ENDIF`.
pub open spec fn endif_match(s: Seq<char>) -> bool {
    &&& s.len() == 6
    &&& s[0] == '#' && s[1] == 'E' && s[2] == 'N' && s[3] == 'D' && s[4] == 'I' && s[5] == 'F'
}

/// The `u32` value of an all-digits suffix starting at `from`, or `None`
/// on overflow.
pub open spec fn digits_value_u32(s: Seq<char>, from: int) -> Option<u32> {
    match spec_parse_uint(s.skip(from), 10, u32::MAX as int) {
        Some(v) => Some(v as u32),
        None => None,
    }
}

/// `#mmm02:` then non-whitespace to the end.
pub open spec fn timesig_match(s: Seq<char>) -> bool {
    &&& s.len() >= 7
    &&& s[0] == '#'
    &&& is_digit(s[1], 10) && is_digit(s[2], 10) && is_digit(s[3], 10)
    &&& s[4] == '0' && s[5] == '2' && s[6] == ':'
    &&& forall|j: int| 7 <= j < s.len() ==> !is_ws(#[trigger] s[j])
}

/// The measure number spelled by the three digits at `at`.
pub open spec fn measure_at(s: Seq<char>, at: int) -> u32 {
    (100 * digit_val(s[at]) + 10 * digit_val(s[at + 1]) + digit_val(s[at + 2])) as u32
}

/// Grid line without the `EXT` prefix: `#`, three digits, two
/// non-whitespace channel characters, `:`, then letters and digits.
pub open spec fn grid_plain_match(s: Seq<char>) -> bool {
    &&& s.len() >= 7
    &&& s[0] == '#'
    &&& is_digit(s[1], 10) && is_digit(s[2], 10) && is_digit(s[3], 10)
    &&& !is_ws(s[4]) && !is_ws(s[5])
    &&& s[6] == ':'
    &&& all_digits(s.skip(7), 36)
}

/// Grid line with the `EXT` prefix: `#EXT`, whitespace, then a plain
/// grid body starting with `#`.
pub open spec fn grid_ext_match(s: Seq<char>) -> bool {
    let w = ws_run_end(s, 4);
    &&& s.len() >= 4
    &&& s[0] == '#' && s[1] == 'E' && s[2] == 'X' && s[3] == 'T'
    &&& w > 4
    &&& w + 7 <= s.len()
    &&& s[w] == '#'
    &&& is_digit(s[w + 1], 10) && is_digit(s[w + 2], 10) && is_digit(s[w + 3], 10)
    &&& !is_ws(s[w + 4]) && !is_ws(s[w + 5])
    &&& s[w + 6] == ':'
    &&& all_digits(s.skip(w + 7), 36)
}

/// The channel number spelled by the two characters at `at`, as
/// `from_str_radix` in base 36 reads them.
pub open spec fn channel_at(s: Seq<char>, at: int) -> Option<u16> {
    match spec_parse_uint(s.subrange(at, at + 2), 36, u16::MAX as int) {
        Some(v) => Some(v as u16),
        None => None,
    }
}

/// `#`, a nonempty word-character name, then either the end of the
/// line or whitespace followed by a value that starts with a
/// non-whitespace character and runs to the end.
pub open spec fn header_match(s: Seq<char>) -> bool {
    let ne = word_run_end(s, 1);
    &&& s.len() >= 2
    &&& s[0] == '#'
    &&& ne > 1
    &&& (ne == s.len() || (is_ws(s[ne]) && ws_run_end(s, ne) < s.len()))
}

/// Classify one line of chart text.
pub open spec fn spec_classify(s: Seq<char>) -> LineClass {
    if random_match(s) {
        LineClass::Random { value: digits_value_u32(s, ws_run_end(s, 7)) }
    } else if endrandom_match(s) {
        LineClass::EndRandom
    } else if if_match(s) {
        LineClass::If { value: digits_value_u32(s, ws_run_end(s, 3)) }
    } else if endif_match(s) {
        LineClass::EndIf
    } else if timesig_match(s) {
        LineClass::TimeSig { measure: measure_at(s, 1), mult: spec_parse_decimal(s.skip(7)) }
    } else if grid_plain_match(s) {
        LineClass::Grid { measure: measure_at(s, 1), channel: channel_at(s, 4), vals_at: 7 }
    } else if grid_ext_match(s) {
        let w = ws_run_end(s, 4);
        LineClass::Grid {
            measure: measure_at(s, w + 1),
            channel: channel_at(s, w + 4),
            vals_at: (w + 7) as usize,
        }
    } else if header_match(s) {
        let ne = word_run_end(s, 1);
        if ne == s.len() {
            LineClass::Header {
                name_at: 1,
                name_end: ne as usize,
                val_at: s.len() as usize,
                val_end: s.len() as usize,
            }
        } else {
            LineClass::Header {
                name_at: 1,
                name_end: ne as usize,
                val_at: ws_run_end(s, ne) as usize,
                val_end: s.len() as usize,
            }
        }
    } else {
        LineClass::Other
    }
}

/// No whitespace at or after `from`.
fn check_no_ws_from(s: &[char], from: usize) -> (r: bool)
    requires
        from <= s@.len(),
    ensures
        r == (forall|j: int| from <= j < s@.len() ==> !is_ws(#[trigger] s@[j])),
{
    let mut i = from;
    while i < s.len()
        invariant
            from <= i <= s@.len(),
            forall|j: int| from <= j < i ==> !is_ws(#[trigger] s@[j]),
        decreases s@.len() - i,
    {
        if is_ws_char(s[i]) {
            return false;
        }
        i += 1;
    }
    true
}

/// Parse the all-digit suffix starting at `from` as a `u32`.
fn digits_u32(s: &[char], from: usize) -> (r: Option<u32>)
    requires
        from <= s@.len(),
    ensures
        r == digits_value_u32(s@, from as int),
{
    let tail = vstd::slice::slice_subrange(s, from, s.len());
    proof {
        assert(tail@ =~= s@.skip(from as int));
    }
    match parse_uint(tail, 10, 0xffff_ffff) {
        Some(v) => Some(v as u32),
        None => None,
    }
}

/// Parse the two channel characters at `at` as a base-36 number.
fn channel_u16(s: &[char], at: usize) -> (r: Option<u16>)
    requires
        at + 2 <= s@.len(),
    ensures
        r == channel_at(s@, at as int),
{
    let n = s.len();
    let two = vstd::slice::slice_subrange(s, at, at + 2);
    proof {
        assert(two@ =~= s@.subrange(at as int, at as int + 2));
    }
    match parse_uint(two, 36, 0xffff) {
        Some(v) => Some(v as u16),
        None => None,
    }
}

/// The measure number spelled by the three digits at `at`.
fn measure_u32(s: &[char], at: usize) -> (r: u32)
    requires
        at + 3 <= s@.len(),
        is_digit(s@[at as int], 10),
        is_digit(s@[at as int + 1], 10),
        is_digit(s@[at as int + 2], 10),
    ensures
        r == measure_at(s@, at as int),
{
    let d0 = digit_val_of(s[at]);
    let d1 = digit_val_of(s[at + 1]);
    let d2 = digit_val_of(s[at + 2]);
    100 * d0 + 10 * d1 + d2
}

/// Classify one line of chart text.
pub fn classify(s: &[char]) -> (r: LineClass)
    ensures
        r == spec_classify(s@),
{
    if s.len() < 2 || s[0] != '#' {
        return LineClass::Other;
    }
    // #RANDOM n
    if s.len() >= 7 && s[1] == 'R' && s[2] == 'A' && s[3] == 'N' && s[4] == 'D' && s[5] == 'O'
        && s[6] == 'M' {
        let w = skip_ws(s, 7);
        if w > 7 && w < s.len() && check_digits_from(s, w, 10) {
            assert(all_digits(s@.skip(w as int), 10)) by {
                assert forall|j: int| 0 <= j < s@.skip(w as int).len() implies is_digit(
                    #[trigger] s@.skip(w as int)[j],
                    10,
                ) by {
                    assert(s@.skip(w as int)[j] == s@[j + w]);
                }
            }
            let value = digits_u32(s, w);
            return LineClass::Random { value };
        }
    }
    // #ENDRANDOM
    if s.len() == 10 && s[1] == 'E' && s[2] == 'N' && s[3] == 'D' && s[4] == 'R' && s[5] == 'A'
        && s[6] == 'N' && s[7] == 'D' && s[8] == 'O' && s[9] == 'M' {
        return LineClass::EndRandom;
    }
    // #IF v
    if s.len() >= 3 && s[1] == 'I' && s[2] == 'F' {
        let w = skip_ws(s, 3);
        if w > 3 && w < s.len() && check_digits_from(s, w, 10) {
            assert(all_digits(s@.skip(w as int), 10)) by {
                assert forall|j: int| 0 <= j < s@.skip(w as int).len() implies is_digit(
                    #[trigger] s@.skip(w as int)[j],
                    10,
                ) by {
                    assert(s@.skip(w as int)[j] == s@[j + w]);
                }
            }
            let value = digits_u32(s, w);
            return LineClass::If { value };
        }
    }
    // #ENDIF
    if s.len() == 6 && s[1] == 'E' && s[2] == 'N' && s[3] == 'D' && s[4] == 'I' && s[5] == 'F' {
        return LineClass::EndIf;
    }
    // #mmm02:multiplier
    if s.len() >= 7 && digit_val_of(s[1]) < 10 && digit_val_of(s[2]) < 10 && digit_val_of(s[3])
        < 10 && s[4] == '0' && s[5] == '2' && s[6] == ':' && check_no_ws_from(s, 7) {
        let measure = measure_u32(s, 1);
        let tail = vstd::slice::slice_subrange(s, 7, s.len());
        proof {
            assert(tail@ =~= s@.skip(7));
        }
        let mult = parse_decimal(tail);
        return LineClass::TimeSig { measure, mult };
    }
    // #mmmCC:pairs
    if s.len() >= 7 && digit_val_of(s[1]) < 10 && digit_val_of(s[2]) < 10 && digit_val_of(s[3])
        < 10 && !is_ws_char(s[4]) && !is_ws_char(s[5]) && s[6] == ':' && check_digits_from(
        s,
        7,
        36,
    ) {
        assert(!timesig_match(s@));
        let measure = measure_u32(s, 1);
        let channel = channel_u16(s, 4);
        return LineClass::Grid { measure, channel, vals_at: 7 };
    }
    // #EXT #mmmCC:pairs
    if s.len() >= 4 && s[1] == 'E' && s[2] == 'X' && s[3] == 'T' {
        let w = skip_ws(s, 4);
        if w > 4 && s.len() >= 7 && w <= s.len() - 7 && s[w] == '#' && digit_val_of(s[w + 1])
            < 10 && digit_val_of(s[w + 2]) < 10 && digit_val_of(s[w + 3]) < 10 && !is_ws_char(
            s[w + 4],
        ) && !is_ws_char(s[w + 5]) && s[w + 6] == ':' && check_digits_from(s, w + 7, 36) {
            let measure = measure_u32(s, w + 1);
            let channel = channel_u16(s, w + 4);
            return LineClass::Grid { measure, channel, vals_at: w + 7 };
        }
    }
    // #NAME value
    let ne = skip_word(s, 1);
    proof {
        lemma_word_run_end(s@, 1);
    }
    if ne > 1 {
        if ne == s.len() {
            return LineClass::Header {
                name_at: 1,
                name_end: ne,
                val_at: s.len(),
                val_end: s.len(),
            };
        }
        if is_ws_char(s[ne]) {
            let vs = skip_ws(s, ne);
            if vs < s.len() {
                return LineClass::Header { name_at: 1, name_end: ne, val_at: vs, val_end: s.len() };
            }
        }
    }
    LineClass::Other
}

/// Drop a single trailing carriage return, as line splitting does.
pub open spec fn strip_cr(l: Seq<char>) -> Seq<char> {
    if l.len() > 0 && l.last() == '\r' {
        l.drop_last()
    } else {
        l
    }
}

/// Split text into lines at `'\n'`, dropping one `'\r'` before each
/// split point, exactly as `str::lines` does on text with no trailing
/// newline.
pub open spec fn split_lines(s: Seq<char>) -> Seq<Seq<char>>
    decreases s.len(),
{
    if s.len() == 0 {
        Seq::empty()
    } else {
        let i = find_char(s, '\n');
        if 0 <= i < s.len() {
            seq![strip_cr(s.take(i))] + split_lines(s.skip(i + 1))
        } else {
            seq![strip_cr(s)]
        }
    }
}

/// The text with leading whitespace removed.
pub open spec fn trim_front(s: Seq<char>) -> Seq<char>
    decreases s.len(),
{
    if s.len() > 0 && is_ws(s[0]) {
        trim_front(s.skip(1))
    } else {
        s
    }
}

/// The text with trailing whitespace removed.
pub open spec fn trim_back(s: Seq<char>) -> Seq<char>
    decreases s.len(),
{
    if s.len() > 0 && is_ws(s.last()) {
        trim_back(s.drop_last())
    } else {
        s
    }
}

/// The text with surrounding whitespace removed, as `str::trim`.
pub open spec fn spec_trim(s: Seq<char>) -> Seq<char> {
    trim_back(trim_front(s))
}

/// `trim_front` drops exactly the leading whitespace run.
pub proof fn lemma_trim_front_is_skip(s: Seq<char>)
    ensures
        trim_front(s) == s.skip(ws_run_end(s, 0)),
    decreases s.len(),
{
    lemma_ws_run_end(s, 0);
    if s.len() > 0 && is_ws(s[0]) {
        lemma_trim_front_is_skip(s.skip(1));
        assert(ws_run_end(s, 0) == ws_run_end(s, 1));
        lemma_ws_shift_general(s, 1, 0);
        assert(ws_run_end(s, 1) == 1 + ws_run_end(s.skip(1), 0));
        lemma_ws_run_end(s.skip(1), 0);
        assert(s.skip(1).skip(ws_run_end(s.skip(1), 0)) =~= s.skip(ws_run_end(s, 1)));
    } else {
        assert(s.skip(0) =~= s);
    }
}

/// General index shift between a sequence and its suffix.
proof fn lemma_ws_shift_general(t: Seq<char>, k: int, j: int)
    requires
        0 <= k <= t.len(),
        0 <= j <= t.len() - k,
    ensures
        ws_run_end(t, k + j) == k + ws_run_end(t.skip(k), j),
    decreases t.len() - k - j,
{
    if k + j < t.len() {
        assert(t.skip(k)[j] == t[k + j]);
        if is_ws(t[k + j]) {
            lemma_ws_shift_general(t, k, j + 1);
        }
    }
}

/// `trim_back` takes exactly up to the last non-whitespace character.
pub proof fn lemma_trim_back_is_take(s: Seq<char>, b: int)
    requires
        0 <= b <= s.len(),
        forall|j: int| b <= j < s.len() ==> is_ws(#[trigger] s[j]),
        b > 0 ==> !is_ws(s[b - 1]),
    ensures
        trim_back(s) == s.take(b),
    decreases s.len(),
{
    if s.len() == 0 {
        assert(trim_back(s) =~= s.take(b));
    } else if b == s.len() {
        assert(!is_ws(s.last()));
        assert(trim_back(s) =~= s.take(b));
    } else {
        assert(is_ws(s.last()));
        lemma_trim_back_is_take(s.drop_last(), b);
        assert(s.drop_last().take(b) =~= s.take(b));
    }
}

} // verus!
