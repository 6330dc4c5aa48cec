//! Unescaping: from what stands between the quotes of a JSON string literal
//! to the text of the string, with strict checking of UTF-16 surrogates.

use crate::error::{committed, hard, soft, ErrorKind, ParseError};
use crate::search::{first_match, none_before, occurs_at, searcher_patterns, uniform, Searcher};
use crate::text::{
    lemma_ascii_cut, lemma_ends_cut, push_ascii, push_text, substr, substr_to_end, BACKSLASH,
    QUOTE, SLASH,
};
use crate::units::{
    buffered_units, clear_units, decode_utf16, is_high, is_low, new_unit_buffer, pair_scalar,
    push_unit, unit_slice, utf16_text, UnitBuffer,
};
use std::borrow::Cow;
use vstd::prelude::*;
use vstd::slice::*;
use vstd::string::*;
use vstd::utf8::*;

verus! {

/// `u`, the letter that opens a `\uXXXX` escape.
pub const LETTER_U: u8 = 0x75;

/// The letter of the escape sequence that the unescaper's pattern number
/// `k` looks for: `"`, `\`, `/`, `b`, `f`, `n`, `r`, `t`, `u`.
pub open spec fn escape_letter(k: int) -> u8 {
    if k == 0 {
        QUOTE
    } else if k == 1 {
        BACKSLASH
    } else if k == 2 {
        SLASH
    } else if k == 3 {
        0x62
    } else if k == 4 {
        0x66
    } else if k == 5 {
        0x6E
    } else if k == 6 {
        0x72
    } else if k == 7 {
        0x74
    } else {
        LETTER_U
    }
}

/// The byte may follow a backslash.
pub open spec fn is_escape_letter(c: u8) -> bool {
    c == QUOTE || c == BACKSLASH || c == SLASH || c == 0x62 || c == 0x66 || c == 0x6E || c == 0x72
        || c == 0x74 || c == LETTER_U
}

/// The byte that a short escape with the letter `c` stands for.
pub open spec fn short_escape_value(c: u8) -> u8 {
    if c == 0x62 {
        0x08
    } else if c == 0x66 {
        0x0C
    } else if c == 0x6E {
        0x0A
    } else if c == 0x72 {
        0x0D
    } else if c == 0x74 {
        0x09
    } else {
        c
    }
}

/// The number of the pattern whose letter is `c`.
pub open spec fn letter_index(c: u8) -> int {
    if c == QUOTE {
        0
    } else if c == BACKSLASH {
        1
    } else if c == SLASH {
        2
    } else if c == 0x62 {
        3
    } else if c == 0x66 {
        4
    } else if c == 0x6E {
        5
    } else if c == 0x72 {
        6
    } else if c == 0x74 {
        7
    } else {
        8
    }
}

/// What the unescaper looks for: a backslash and one of the nine letters.
pub open spec fn unescape_patterns() -> Seq<Seq<u8>> {
    Seq::new(9, |k: int| seq![BACKSLASH, escape_letter(k)])
}

/// A hexadecimal digit, in either case.
pub open spec fn is_hex(b: u8) -> bool {
    (0x30 <= b <= 0x39) || (0x41 <= b <= 0x46) || (0x61 <= b <= 0x66)
}

/// The value of a hexadecimal digit.
pub open spec fn hex_value(b: u8) -> int {
    if b <= 0x39 {
        b - 0x30
    } else if b <= 0x46 {
        b - 0x41 + 10
    } else {
        b - 0x61 + 10
    }
}

/// Four hexadecimal digits stand in `s` at `at`.
pub open spec fn hex4_at(s: Seq<u8>, at: int) -> bool {
    &&& 0 <= at
    &&& at + 4 <= s.len()
    &&& is_hex(s[at])
    &&& is_hex(s[at + 1])
    &&& is_hex(s[at + 2])
    &&& is_hex(s[at + 3])
}

/// The 16-bit code unit that the four hexadecimal digits at `at` write.
pub open spec fn hex4_value(s: Seq<u8>, at: int) -> int {
    hex_value(s[at]) * 4096 + hex_value(s[at + 1]) * 256 + hex_value(s[at + 2]) * 16 + hex_value(
        s[at + 3],
    )
}

/// The escape sequence whose letter stands at `at`, just behind a
/// backslash: where it ends, or why it is refused.
///
/// A `\uXXXX` takes four hexadecimal digits. A high surrogate must be
/// followed at once by a `\uXXXX` that is a low surrogate; a low surrogate
/// must not come first. Both of these fail for good.
pub open spec fn escape_seq(s: Seq<u8>, at: int) -> Result<int, ParseError> {
    if at < 0 || at >= s.len() || !is_escape_letter(s[at]) {
        Err(soft(ErrorKind::Escape, at))
    } else if s[at] != LETTER_U {
        Ok(at + 1)
    } else if !hex4_at(s, at + 1) {
        Err(soft(ErrorKind::Escape, at + 1))
    } else if is_high(hex4_value(s, at + 1)) {
        if !(at + 7 <= s.len() && s[at + 5] == BACKSLASH && s[at + 6] == LETTER_U) {
            Err(soft(ErrorKind::Escape, at + 5))
        } else if !hex4_at(s, at + 7) {
            Err(soft(ErrorKind::Escape, at + 7))
        } else if !is_low(hex4_value(s, at + 7)) {
            Err(hard(ErrorKind::Escape, at + 7))
        } else {
            Ok(at + 11)
        }
    } else if is_low(hex4_value(s, at + 1)) {
        Err(hard(ErrorKind::Escape, at + 1))
    } else {
        Ok(at + 5)
    }
}

/// The scalar value that the `\uXXXX` escape with its digits at `at` (and,
/// for a surrogate pair, the digits of its partner at `at + 6`) stands for.
pub open spec fn escape_scalar(s: Seq<u8>, at: int) -> int {
    let first = hex4_value(s, at);
    if is_high(first) {
        pair_scalar(first, hex4_value(s, at + 6))
    } else {
        first
    }
}

/// The bytes that the escape sequence with its letter at `at` stands for:
/// one byte for a short escape, the UTF-8 encoding of its scalar value for a
/// `\uXXXX`.
pub open spec fn escape_value(s: Seq<u8>, at: int) -> Seq<u8> {
    if s[at] == LETTER_U {
        encode_scalar(escape_scalar(s, at + 1) as u32)
    } else {
        seq![short_escape_value(s[at])]
    }
}

/// Walks over string content from `at`: plain bytes and escape sequences.
/// With `quoted`, the walk ends at the first quote that no backslash
/// precedes, and the end of the input is a failure (the string is not
/// closed); without it, a quote is a plain byte and the walk ends with the
/// input. A refused escape sequence ends the parse.
pub open spec fn scan_text(s: Seq<u8>, at: int, quoted: bool) -> Result<int, ParseError>
    decreases s.len() - at,
{
    if at < 0 || at >= s.len() {
        if quoted {
            Err(hard(ErrorKind::Syntax, at))
        } else {
            Ok(at)
        }
    } else if quoted && s[at] == QUOTE {
        Ok(at)
    } else if s[at] == BACKSLASH {
        match escape_seq(s, at + 1) {
            Ok(next) => scan_text(s, next, quoted),
            Err(e) => Err(committed(e)),
        }
    } else {
        scan_text(s, at + 1, quoted)
    }
}

/// The text that the string content from `at` up to `end` stands for: each
/// escape sequence replaced by its value.
pub open spec fn decoded(s: Seq<u8>, at: int, end: int) -> Seq<u8>
    decreases s.len() - at,
{
    if at < 0 || at >= end || at >= s.len() {
        Seq::<u8>::empty()
    } else if s[at] == BACKSLASH {
        match escape_seq(s, at + 1) {
            Ok(next) => escape_value(s, at + 1) + decoded(s, next, end),
            Err(_) => seq![s[at]] + decoded(s, at + 1, end),
        }
    } else {
        seq![s[at]] + decoded(s, at + 1, end)
    }
}

/// What unescaping makes of the content of a string literal: its text, or
/// the first failure.
pub open spec fn unescaped(s: Seq<u8>) -> Result<Seq<u8>, ParseError> {
    match scan_text(s, 0, false) {
        Ok(_) => Ok(decoded(s, 0, s.len() as int)),
        Err(e) => Err(e),
    }
}

/// No backslash in `s` from `from` up to `to`; with `quoted`, no quote
/// either.
pub open spec fn plain_run(s: Seq<u8>, from: int, to: int, quoted: bool) -> bool {
    forall|i: int| from <= i < to ==> (#[trigger] s[i]) != BACKSLASH && (quoted ==> s[i] != QUOTE)
}

/// The walk passes over a run of plain bytes.
pub proof fn lemma_scan_plain_run(s: Seq<u8>, from: int, to: int, quoted: bool)
    requires
        0 <= from <= to <= s.len(),
        plain_run(s, from, to, quoted),
    ensures
        scan_text(s, from, quoted) == scan_text(s, to, quoted),
    decreases to - from,
{
    if from < to {
        assert(s[from] != BACKSLASH);
        lemma_scan_plain_run(s, from + 1, to, quoted);
    }
}

/// A run of plain bytes stands for itself.
pub proof fn lemma_decoded_plain_run(s: Seq<u8>, from: int, to: int, end: int)
    requires
        0 <= from <= to <= end,
        to <= s.len(),
        plain_run(s, from, to, false),
    ensures
        decoded(s, from, end) == s.subrange(from, to) + decoded(s, to, end),
    decreases to - from,
{
    if from < to {
        assert(s[from] != BACKSLASH);
        lemma_decoded_plain_run(s, from + 1, to, end);
        assert(decoded(s, from, end) =~= s.subrange(from, to) + decoded(s, to, end));
    } else {
        assert(s.subrange(from, to) + decoded(s, to, end) =~= decoded(s, to, end));
    }
}

/// Where the walk ends: not before its start and within the text; with
/// `quoted`, at a quote.
pub proof fn lemma_scan_bounds(s: Seq<u8>, at: int, quoted: bool)
    requires
        0 <= at <= s.len(),
        scan_text(s, at, quoted) is Ok,
    ensures
        at <= scan_text(s, at, quoted)->Ok_0 <= s.len(),
        quoted ==> scan_text(s, at, quoted)->Ok_0 < s.len() && s[scan_text(s, at, quoted)->Ok_0]
            == QUOTE,
    decreases s.len() - at,
{
    if at < s.len() && !(quoted && s[at] == QUOTE) {
        if s[at] == BACKSLASH {
            lemma_scan_bounds(s, escape_seq(s, at + 1)->Ok_0, quoted);
        } else {
            lemma_scan_bounds(s, at + 1, quoted);
        }
    }
}

/// The content of a string literal, cut out of the text, is accepted by the
/// walk that knows no closing quote, and stands for the same text.
pub proof fn lemma_content_window(s: Seq<u8>, from: int, at: int, close: int)
    requires
        0 <= from <= at <= s.len(),
        scan_text(s, at, true) == Ok::<int, ParseError>(close),
    ensures
        at <= close <= s.len(),
        scan_text(s.subrange(from, close), at - from, false) == Ok::<int, ParseError>(
            close - from,
        ),
        decoded(s.subrange(from, close), at - from, close - from) == decoded(s, at, close),
    decreases s.len() - at,
{
    lemma_scan_bounds(s, at, true);
    let raw = s.subrange(from, close);
    if at < close {
        assert(raw[at - from] == s[at]);
        if s[at] == BACKSLASH {
            let next = escape_seq(s, at + 1)->Ok_0;
            lemma_scan_bounds(s, next, true);
            assert(forall|i: int| at <= i < next ==> raw[i - from] == s[i]);
            assert(raw[at + 1 - from] == s[at + 1]);
            if s[at + 1] == LETTER_U {
                assert(raw[at + 2 - from] == s[at + 2]);
                assert(raw[at + 3 - from] == s[at + 3]);
                assert(raw[at + 4 - from] == s[at + 4]);
                assert(raw[at + 5 - from] == s[at + 5]);
                assert(hex4_at(raw, at + 2 - from));
                assert(hex4_value(raw, at + 2 - from) == hex4_value(s, at + 2));
                if is_high(hex4_value(s, at + 2)) {
                    assert(raw[at + 6 - from] == s[at + 6]);
                    assert(raw[at + 7 - from] == s[at + 7]);
                    assert(raw[at + 8 - from] == s[at + 8]);
                    assert(raw[at + 9 - from] == s[at + 9]);
                    assert(raw[at + 10 - from] == s[at + 10]);
                    assert(raw[at + 11 - from] == s[at + 11]);
                    assert(hex4_at(raw, at + 8 - from));
                    assert(hex4_value(raw, at + 8 - from) == hex4_value(s, at + 8));
                }
            }
            assert(escape_seq(raw, at + 1 - from) == Ok::<int, ParseError>(next - from));
            assert(escape_value(raw, at + 1 - from) == escape_value(s, at + 1));
            lemma_content_window(s, from, next, close);
        } else {
            lemma_content_window(s, from, at + 1, close);
        }
    }
}

/// The unescaper's patterns are pairs of bytes, all different.
proof fn lemma_unescape_patterns_uniform()
    ensures
        uniform(unescape_patterns(), 2),
{
    let p = unescape_patterns();
    assert forall|j: int, k: int| 0 <= j < k < p.len() implies #[trigger] p[j] != #[trigger] p[k] by {
        assert(p[j][1] == escape_letter(j));
        assert(p[k][1] == escape_letter(k));
    }
}

/// In content that the walk accepts, a stretch in which no unescaper
/// pattern stands holds no backslash.
proof fn lemma_no_pattern_is_plain(s: Seq<u8>, from: int, to: int)
    requires
        0 <= from <= to <= s.len(),
        scan_text(s, from, false) is Ok,
        none_before(unescape_patterns(), s.subrange(from, s.len() as int), to - from),
    ensures
        plain_run(s, from, to, false),
    decreases to - from,
{
    if from < to {
        let tail = s.subrange(from, s.len() as int);
        if s[from] == BACKSLASH {
            assert(escape_seq(s, from + 1) is Ok);
            let c = s[from + 1];
            let k = letter_index(c);
            assert(unescape_patterns()[k] =~= seq![BACKSLASH, c]);
            assert(tail.subrange(0, 2) =~= seq![BACKSLASH, c]);
            assert(occurs_at(unescape_patterns()[k], tail, 0));
            assert(false);
        }
        let next = s.subrange(from + 1, s.len() as int);
        assert forall|k: int, at: int|
            0 <= k < unescape_patterns().len() && 0 <= at < to - (from + 1) implies !#[trigger] occurs_at(
            unescape_patterns()[k],
            next,
            at,
        ) by {
            let pat = unescape_patterns()[k];
            if occurs_at(pat, next, at) {
                assert(tail.subrange(at + 1, at + 1 + pat.len()) =~= next.subrange(
                    at,
                    at + pat.len(),
                ));
                assert(occurs_at(pat, tail, at + 1));
            }
        }
        lemma_no_pattern_is_plain(s, from + 1, to);
    }
}

/// The value of the hexadecimal digit `b`, if it is one.
fn hex_digit_value(b: u8) -> (r: Option<u8>)
    ensures
        r is Some <==> is_hex(b),
        r matches Some(v) ==> v == hex_value(b) && v < 16,
{
    if 0x30 <= b && b <= 0x39 {
        Some(b - 0x30)
    } else if 0x41 <= b && b <= 0x46 {
        Some(b - 0x41 + 10)
    } else if 0x61 <= b && b <= 0x66 {
        Some(b - 0x61 + 10)
    } else {
        None
    }
}

/// Reads the four hexadecimal digits at byte `at` of `input` as one 16-bit
/// code unit; `None` where four such digits do not stand there.
pub fn hex_u16(input: &str, at: usize) -> (r: Option<u16>)
    ensures
        r is Some <==> hex4_at(input.spec_bytes(), at as int),
        r matches Some(v) ==> v == hex4_value(input.spec_bytes(), at as int),
{
    let bytes = input.as_bytes();
    let n = bytes.len();
    if at > n || n - at < 4 {
        return None;
    }
    let d0 = hex_digit_value(bytes[at]);
    let d1 = hex_digit_value(bytes[at + 1]);
    let d2 = hex_digit_value(bytes[at + 2]);
    let d3 = hex_digit_value(bytes[at + 3]);
    match (d0, d1, d2, d3) {
        (Some(a), Some(b), Some(c), Some(d)) => {
            let v: u16 = (a as u16) * 4096 + (b as u16) * 256 + (c as u16) * 16 + (d as u16);
            Some(v)
        },
        _ => None,
    }
}

/// Tells whether `c` may follow a backslash.
fn escape_letter_ok(c: u8) -> (ok: bool)
    ensures
        ok == is_escape_letter(c),
{
    c == QUOTE || c == BACKSLASH || c == SLASH || c == 0x62 || c == 0x66 || c == 0x6E || c == 0x72
        || c == 0x74 || c == LETTER_U
}

/// Checks the escape sequence whose letter stands at byte `at` of `input`,
/// just behind a backslash, and returns the offset behind it.
pub fn parse_escape_seq(input: &str, at: usize) -> (r: Result<usize, ParseError>)
    ensures
        match r {
            Ok(next) => escape_seq(input.spec_bytes(), at as int) == Ok::<int, ParseError>(
                next as int,
            ),
            Err(e) => escape_seq(input.spec_bytes(), at as int) == Err::<int, ParseError>(e),
        },
{
    let bytes = input.as_bytes();
    let n = bytes.len();
    if at >= n || !escape_letter_ok(bytes[at]) {
        return Err(ParseError::new(ErrorKind::Escape, at, false));
    }
    if bytes[at] != LETTER_U {
        return Ok(at + 1);
    }
    let first = match hex_u16(input, at + 1) {
        Some(v) => v,
        None => {
            return Err(ParseError::new(ErrorKind::Escape, at + 1, false));
        },
    };
    if 0xD800 <= first && first < 0xDC00 {
        if n - at < 7 || bytes[at + 5] != BACKSLASH || bytes[at + 6] != LETTER_U {
            return Err(ParseError::new(ErrorKind::Escape, at + 5, false));
        }
        match hex_u16(input, at + 7) {
            None => Err(ParseError::new(ErrorKind::Escape, at + 7, false)),
            Some(second) => {
                if 0xDC00 <= second && second < 0xE000 {
                    Ok(at + 11)
                } else {
                    Err(ParseError::new(ErrorKind::Escape, at + 7, true))
                }
            },
        }
    } else if 0xDC00 <= first && first < 0xE000 {
        Err(ParseError::new(ErrorKind::Escape, at + 1, true))
    } else {
        Ok(at + 5)
    }
}

/// Walks over string content from byte `from` of `input`, checking every
/// escape sequence. With `quoted` it returns the offset of the closing
/// quote, without it the length of the input.
pub fn scan(input: &str, from: usize, quoted: bool) -> (r: Result<usize, ParseError>)
    ensures
        match r {
            Ok(end) => scan_text(input.spec_bytes(), from as int, quoted) == Ok::<int, ParseError>(
                end as int,
            ),
            Err(e) => scan_text(input.spec_bytes(), from as int, quoted) == Err::<int, ParseError>(
                e,
            ),
        },
{
    let bytes = input.as_bytes();
    let n = bytes.len();
    let ghost all = bytes@;
    let mut at = from;
    loop
        invariant
            all == bytes@,
            all == input.spec_bytes(),
            n == all.len(),
            scan_text(all, at as int, quoted) == scan_text(all, from as int, quoted),
        decreases n - at,
    {
        if at >= n {
            if quoted {
                return Err(ParseError::new(ErrorKind::Syntax, at, true));
            } else {
                return Ok(at);
            }
        }
        let b = bytes[at];
        if quoted && b == QUOTE {
            return Ok(at);
        }
        if b == BACKSLASH {
            match parse_escape_seq(input, at + 1) {
                Ok(next) => {
                    at = next;
                },
                Err(e) => {
                    return Err(e.commit());
                },
            }
        } else {
            at = at + 1;
        }
    }
}

/// The byte that the short escape of pattern number `k` stands for.
fn short_value_of(k: usize) -> (b: u8)
    requires
        k < 8,
    ensures
        b == short_escape_value(escape_letter(k as int)),
        b < 0x80,
{
    if k == 0 {
        QUOTE
    } else if k == 1 {
        BACKSLASH
    } else if k == 2 {
        SLASH
    } else if k == 3 {
        0x08
    } else if k == 4 {
        0x0C
    } else if k == 5 {
        0x0A
    } else if k == 6 {
        0x0D
    } else {
        0x09
    }
}

/// The unescaper's patterns, as the searcher takes them.
pub(crate) fn unescape_pattern_list() -> (v: Vec<Vec<u8>>)
    ensures
        v.deep_view() == unescape_patterns(),
{
    let letters: [u8; 9] = [QUOTE, BACKSLASH, SLASH, 0x62, 0x66, 0x6E, 0x72, 0x74, LETTER_U];
    let mut v: Vec<Vec<u8>> = Vec::new();
    let mut k: usize = 0;
    while k < 9
        invariant
            k <= 9,
            v@.len() == k,
            forall|j: int| 0 <= j < 9 ==> letters@[j] == escape_letter(j),
            forall|j: int| 0 <= j < v@.len() ==> (#[trigger] v@[j])@ == seq![BACKSLASH, escape_letter(j)],
        decreases 9 - k,
    {
        v.push(vec![BACKSLASH, letters[k]]);
        k = k + 1;
    }
    proof {
        assert(v.deep_view() =~= unescape_patterns()) by {
            assert forall|j: int| 0 <= j < 9 implies v.deep_view()[j] == unescape_patterns()[j] by {
                assert(v.deep_view()[j] == v@[j].deep_view());
                assert(v@[j].deep_view() =~= v@[j]@);
            }
        }
    }
    v
}

/// The scalar value that the units of one character stand for.
pub open spec fn units_scalar(held: Seq<u16>) -> int {
    if held.len() == 1 {
        held[0] as int
    } else {
        pair_scalar(held[0] as int, held[1] as int)
    }
}

/// The units are those of exactly one character: one unit that is no
/// surrogate, or a high surrogate and a low one.
pub open spec fn one_character(held: Seq<u16>) -> bool {
    ||| held.len() == 1 && !is_high(held[0] as int) && !is_low(held[0] as int)
    ||| held.len() == 2 && is_high(held[0] as int) && is_low(held[1] as int)
}

/// The units of one character decode to that character, whose UTF-8
/// encoding is that of its scalar value.
proof fn lemma_one_character(held: Seq<u16>)
    requires
        one_character(held),
    ensures
        utf16_text(held) == Some(seq![units_scalar(held) as char]),
        encode_utf8(seq![units_scalar(held) as char]) == encode_scalar(units_scalar(held) as u32),
{
    reveal_with_fuel(utf16_text, 2);
    if held.len() == 1 {
        assert(held.drop_first() =~= Seq::<u16>::empty());
        assert(seq![held[0] as char] + Seq::<char>::empty() =~= seq![held[0] as char]);
    } else {
        assert(held.subrange(2, 2) =~= Seq::<u16>::empty());
        let c = pair_scalar(held[0] as int, held[1] as int) as char;
        assert(seq![c] + Seq::<char>::empty() =~= seq![c]);
    }
    let c = units_scalar(held) as char;
    assert(seq![c].drop_first() =~= Seq::<char>::empty());
    assert(encode_utf8(seq![c].drop_first()) =~= Seq::<u8>::empty());
    assert(encode_utf8(seq![c]) =~= encode_scalar(c as u32));
}

/// Takes the units of one character out of the buffer and writes the
/// character at the end of `out`.
fn flush_units(units: &mut UnitBuffer, out: &mut String)
    requires
        one_character(buffered_units(*old(units))),
    ensures
        buffered_units(*final(units)) == Seq::<u16>::empty(),
        encode_utf8(final(out)@) == encode_utf8(old(out)@) + encode_scalar(
            units_scalar(buffered_units(*old(units))) as u32,
        ),
{
    proof {
        lemma_one_character(buffered_units(*units));
    }
    match decode_utf16(unit_slice(units)) {
        Some(text) => {
            push_text(out, text.as_str());
        },
        None => {
            proof {
                assert(false);
            }
        },
    }
    clear_units(units);
}

/// Where the unescaper stands: it has written `written`, read the content
/// up to `last`, and holds `held` in its buffer. With an empty buffer, what
/// it has written and what the rest stands for make the whole text; with a
/// high surrogate in the buffer, `last` is just behind that surrogate's
/// escape, whose partner is still to be read.
pub open spec fn unescape_state(
    all: Seq<u8>,
    last: int,
    written: Seq<u8>,
    held: Seq<u16>,
) -> bool {
    let total = decoded(all, 0, all.len() as int);
    if held.len() == 0 {
        &&& 0 <= last <= all.len()
        &&& scan_text(all, last, false) is Ok
        &&& written + decoded(all, last, all.len() as int) == total
    } else {
        &&& held.len() == 1
        &&& 6 <= last <= all.len()
        &&& all[last - 6] == BACKSLASH
        &&& hex4_at(all, last - 4)
        &&& held[0] == hex4_value(all, last - 4)
        &&& is_high(hex4_value(all, last - 4))
        &&& escape_seq(all, last - 5) == Ok::<int, ParseError>(last + 6)
        &&& scan_text(all, last + 6, false) is Ok
        &&& written + decoded(all, last - 6, all.len() as int) == total
    }
}

/// No pattern in the rest of the content: the unescaper holds nothing, and
/// the rest stands for itself.
proof fn lemma_unescape_done(all: Seq<u8>, last: int, written: Seq<u8>, held: Seq<u16>)
    requires
        unescape_state(all, last, written, held),
        none_before(
            unescape_patterns(),
            all.subrange(last, all.len() as int),
            all.len() - last,
        ),
    ensures
        held.len() == 0,
        plain_run(all, last, all.len() as int, false),
        written + all.subrange(last, all.len() as int) == decoded(all, 0, all.len() as int),
{
    let n = all.len() as int;
    let tail = all.subrange(last, n);
    if held.len() == 1 {
        assert(tail.subrange(0, 2) =~= seq![BACKSLASH, LETTER_U]);
        assert(unescape_patterns()[8] =~= seq![BACKSLASH, LETTER_U]);
        assert(occurs_at(unescape_patterns()[8], tail, 0));
        assert(false);
    }
    lemma_no_pattern_is_plain(all, last, n);
    lemma_decoded_plain_run(all, last, n, n);
    assert(decoded(all, n, n) =~= Seq::<u8>::empty());
    assert(tail + Seq::<u8>::empty() =~= tail);
}

/// What the leftmost pattern in the rest of the content tells: a backslash
/// at `start` and the pattern's letter behind it, nothing but plain bytes
/// before it, and, while a high surrogate waits, that the pattern is the
/// `\u` that stands at once.
proof fn lemma_unescape_found(
    all: Seq<u8>,
    last: int,
    written: Seq<u8>,
    held: Seq<u16>,
    k: int,
    s: int,
)
    requires
        unescape_state(all, last, written, held),
        0 <= k < 9,
        occurs_at(unescape_patterns()[k], all.subrange(last, all.len() as int), s),
        none_before(unescape_patterns(), all.subrange(last, all.len() as int), s),
    ensures
        last + s + 2 <= all.len(),
        all[last + s] == BACKSLASH,
        all[last + s + 1] == escape_letter(k),
        held.len() == 1 ==> s == 0 && k == 8,
        held.len() == 0 ==> unescape_state(
            all,
            last + s,
            written + all.subrange(last, last + s),
            held,
        ),
{
    let n = all.len() as int;
    let tail = all.subrange(last, n);
    let start = last + s;
    let pat = unescape_patterns()[k];
    assert(pat =~= seq![BACKSLASH, escape_letter(k)]);
    assert(tail.subrange(s, s + 2)[0] == tail[s]);
    assert(tail.subrange(s, s + 2)[1] == tail[s + 1]);
    if held.len() == 1 {
        assert(tail.subrange(0, 2) =~= seq![BACKSLASH, LETTER_U]);
        assert(unescape_patterns()[8] =~= seq![BACKSLASH, LETTER_U]);
        assert(occurs_at(unescape_patterns()[8], tail, 0));
        lemma_unescape_patterns_uniform();
        if k != 8 {
            if k < 8 {
                assert(unescape_patterns()[k] != unescape_patterns()[8]);
            }
        }
    } else {
        lemma_no_pattern_is_plain(all, last, start);
        lemma_scan_plain_run(all, last, start, false);
        lemma_decoded_plain_run(all, last, start, n);
        assert(written + all.subrange(last, start) + decoded(all, start, n) =~= written + (
        all.subrange(last, start) + decoded(all, start, n)));
    }
}

/// The unescaper's step over a short escape at `start`.
proof fn lemma_unescape_short(all: Seq<u8>, start: int, written: Seq<u8>, k: int)
    requires
        unescape_state(all, start, written, Seq::<u16>::empty()),
        0 <= k < 8,
        start + 2 <= all.len(),
        all[start] == BACKSLASH,
        all[start + 1] == escape_letter(k),
    ensures
        unescape_state(
            all,
            start + 2,
            written.push(short_escape_value(escape_letter(k))),
            Seq::<u16>::empty(),
        ),
{
    let n = all.len() as int;
    assert(escape_seq(all, start + 1) == Ok::<int, ParseError>(start + 2));
    assert(escape_value(all, start + 1) =~= seq![short_escape_value(escape_letter(k))]);
    assert(written.push(short_escape_value(escape_letter(k))) + decoded(all, start + 2, n)
        =~= written + decoded(all, start, n));
}

/// The unescaper's step over the first `\uXXXX` of a character, at `start`.
proof fn lemma_unescape_unit(all: Seq<u8>, start: int, written: Seq<u8>)
    requires
        unescape_state(all, start, written, Seq::<u16>::empty()),
        start + 2 <= all.len(),
        all[start] == BACKSLASH,
        all[start + 1] == LETTER_U,
    ensures
        hex4_at(all, start + 2),
        start + 6 <= all.len(),
        !is_low(hex4_value(all, start + 2)),
        0 <= hex4_value(all, start + 2) < 0x10000,
        is_high(hex4_value(all, start + 2)) ==> unescape_state(
            all,
            start + 6,
            written,
            seq![hex4_value(all, start + 2) as u16],
        ),
        !is_high(hex4_value(all, start + 2)) ==> unescape_state(
            all,
            start + 6,
            written + encode_scalar(hex4_value(all, start + 2) as u32),
            Seq::<u16>::empty(),
        ),
{
    let n = all.len() as int;
    let u = hex4_value(all, start + 2);
    assert(escape_seq(all, start + 1) is Ok);
    if !is_high(u) {
        assert(escape_seq(all, start + 1) == Ok::<int, ParseError>(start + 6));
        assert(escape_value(all, start + 1) == encode_scalar(u as u32));
        assert(written + encode_scalar(u as u32) + decoded(all, start + 6, n) =~= written
            + decoded(all, start, n));
    } else {
        assert(escape_seq(all, start + 1) == Ok::<int, ParseError>(start + 12));
    }
}

/// The unescaper's step over the second `\uXXXX` of a character, at
/// `start`, while the first waits in the buffer.
proof fn lemma_unescape_partner(all: Seq<u8>, start: int, written: Seq<u8>, held: Seq<u16>)
    requires
        held.len() == 1,
        unescape_state(all, start, written, held),
    ensures
        hex4_at(all, start + 2),
        is_low(hex4_value(all, start + 2)),
        is_high(held[0] as int),
        unescape_state(
            all,
            start + 6,
            written + encode_scalar(
                pair_scalar(held[0] as int, hex4_value(all, start + 2)) as u32,
            ),
            Seq::<u16>::empty(),
        ),
{
    let n = all.len() as int;
    let scalar = pair_scalar(held[0] as int, hex4_value(all, start + 2));
    assert(escape_scalar(all, start - 4) == scalar);
    assert(all[start - 5] == LETTER_U);
    assert(escape_value(all, start - 5) == encode_scalar(scalar as u32));
    assert(written + encode_scalar(scalar as u32) + decoded(all, start + 6, n) =~= written
        + decoded(all, start - 6, n));
}

/// The text of string content whose escape sequences are all in order:
/// `input` itself, borrowed, where it holds no escape sequence, else a new
/// string.
pub(crate) fn unescape_with<'a>(searcher: &Searcher, input: &'a str) -> (out: Cow<'a, str>)
    requires
        searcher_patterns(*searcher) == unescape_patterns(),
        scan_text(input.spec_bytes(), 0, false) is Ok,
    ensures
        encode_utf8(out@) == decoded(input.spec_bytes(), 0, input.spec_bytes().len() as int),
        out is Borrowed <==> plain_run(input.spec_bytes(), 0, input.spec_bytes().len() as int, false),
{
    broadcast use encode_utf8_valid_utf8;

    let bytes = input.as_bytes();
    let n = bytes.len();
    let ghost all = bytes@;
    let mut res = String::new();
    let mut last: usize = 0;
    let mut units = new_unit_buffer();
    proof {
        lemma_unescape_patterns_uniform();
        lemma_ends_cut(all);
        assert(encode_utf8(res@) =~= Seq::<u8>::empty());
        assert(encode_utf8(res@) + decoded(all, 0, n as int) =~= decoded(all, 0, n as int));
    }
    loop
        invariant
            n == all.len(),
            all == bytes@,
            all == input.spec_bytes(),
            valid_utf8(all),
            last <= n,
            is_char_boundary(all, last as int),
            searcher_patterns(*searcher) == unescape_patterns(),
            uniform(unescape_patterns(), 2),
            last > 0 ==> !plain_run(all, 0, n as int, false),
            unescape_state(all, last as int, encode_utf8(res@), buffered_units(units)),
        ensures
            last <= n,
            is_char_boundary(all, last as int),
            last > 0 ==> !plain_run(all, 0, n as int, false),
            last == 0 ==> plain_run(all, 0, n as int, false),
            encode_utf8(res@) + all.subrange(last as int, n as int) == decoded(all, 0, n as int),
        decreases n - last,
    {
        let rest = slice_subrange(bytes, last, n);
        match first_match(searcher, rest) {
            None => {
                proof {
                    lemma_unescape_done(all, last as int, encode_utf8(res@), buffered_units(units));
                }
                break ;
            },
            Some((k, s, e)) => {
                let start = last + s;
                proof {
                    lemma_unescape_found(
                        all,
                        last as int,
                        encode_utf8(res@),
                        buffered_units(units),
                        k as int,
                        s as int,
                    );
                    lemma_ascii_cut(all, start as int);
                    lemma_ascii_cut(all, start + 1);
                    assert(!plain_run(all, 0, n as int, false));
                    if s == 0 {
                        assert(all.subrange(last as int, start as int) =~= Seq::<u8>::empty());
                        assert(encode_utf8(res@) + all.subrange(last as int, start as int)
                            =~= encode_utf8(res@));
                    }
                }
                push_text(&mut res, substr(input, last, start));
                if k < 8 {
                    proof {
                        lemma_unescape_short(all, start as int, encode_utf8(res@), k as int);
                    }
                    push_ascii(&mut res, short_value_of(k));
                    last = start + 2;
                } else {
                    let ghost held = buffered_units(units);
                    proof {
                        if held.len() == 0 {
                            lemma_unescape_unit(all, start as int, encode_utf8(res@));
                        } else {
                            lemma_unescape_partner(all, start as int, encode_utf8(res@), held);
                        }
                        lemma_ascii_cut(all, start + 5);
                    }
                    let unit = match hex_u16(input, start + 2) {
                        Some(u) => u,
                        None => {
                            proof {
                                assert(false);
                            }
                            0
                        },
                    };
                    push_unit(&mut units, unit);
                    last = start + 6;
                    if !(0xD800 <= unit && unit < 0xDC00) {
                        flush_units(&mut units, &mut res);
                    }
                }
            },
        }
    }
    if last == 0 {
        proof {
            assert(all.subrange(0, n as int) =~= all);
            assert(encode_utf8(res@) =~= Seq::<u8>::empty());
            assert(encode_utf8(res@) + all =~= all);
        }
        Cow::Borrowed(input)
    } else {
        push_text(&mut res, substr_to_end(input, last));
        Cow::Owned(res)
    }
}

} // verus!
