//! Number literals: their grammar, the integers they write, and the decimal
//! text of an integer.

use crate::text::push_ascii;
use vstd::prelude::*;
use vstd::string::*;
use vstd::utf8::*;

verus! {

/// `-`
pub const MINUS: u8 = 0x2D;

/// `+`
pub const PLUS: u8 = 0x2B;

/// `.`
pub const DOT: u8 = 0x2E;

/// `0`
pub const ZERO: u8 = 0x30;

/// `e`
pub const LOWER_E: u8 = 0x65;

/// `E`
pub const UPPER_E: u8 = 0x45;

/// A decimal digit.
pub open spec fn is_digit(b: u8) -> bool {
    0x30 <= b <= 0x39
}

/// The end of the run of digits that starts at `at`.
pub open spec fn digits_end(s: Seq<u8>, at: int) -> int
    decreases s.len() - at,
{
    if 0 <= at < s.len() && is_digit(s[at]) {
        digits_end(s, at + 1)
    } else {
        at
    }
}

/// Where the digits of a number literal at `at` begin: behind its sign, if
/// it has one.
pub open spec fn digits_start(s: Seq<u8>, at: int) -> int {
    if 0 <= at < s.len() && s[at] == MINUS {
        at + 1
    } else {
        at
    }
}

/// The end of the integer part that starts at `from`: a lone `0`, or a run
/// of digits that does not begin with `0`.
pub open spec fn int_part_end(s: Seq<u8>, from: int) -> Option<int> {
    if !(0 <= from < s.len() && is_digit(s[from])) {
        None
    } else if s[from] == ZERO {
        Some(from + 1)
    } else {
        Some(digits_end(s, from))
    }
}

/// The end of the fraction that may start at `from`: a `.` must be followed
/// by a digit.
pub open spec fn fraction_end(s: Seq<u8>, from: int) -> Option<int> {
    if 0 <= from < s.len() && s[from] == DOT {
        if from + 1 < s.len() && is_digit(s[from + 1]) {
            Some(digits_end(s, from + 1))
        } else {
            None
        }
    } else {
        Some(from)
    }
}

/// Where the digits of the exponent begin whose `e` stands at `from`.
pub open spec fn exponent_digits(s: Seq<u8>, from: int) -> int {
    if from + 1 < s.len() && (s[from + 1] == PLUS || s[from + 1] == MINUS) {
        from + 2
    } else {
        from + 1
    }
}

/// The end of the exponent that may start at `from`: an `e` or `E`, an
/// optional sign, and at least one digit.
pub open spec fn exponent_end(s: Seq<u8>, from: int) -> Option<int> {
    if 0 <= from < s.len() && (s[from] == LOWER_E || s[from] == UPPER_E) {
        let digits = exponent_digits(s, from);
        if digits < s.len() && is_digit(s[digits]) {
            Some(digits_end(s, digits))
        } else {
            None
        }
    } else {
        Some(from)
    }
}

/// The extent of a number literal: the end of its integer part and its own
/// end.
pub struct NumberSpan {
    pub int_end: int,
    pub end: int,
}

/// The number literal that starts at `at`: an optional `-`, an integer
/// part, an optional fraction, an optional exponent. `None` where no
/// well-formed literal starts there.
pub open spec fn number_span(s: Seq<u8>, at: int) -> Option<NumberSpan> {
    match int_part_end(s, digits_start(s, at)) {
        None => None,
        Some(int_end) => match fraction_end(s, int_end) {
            None => None,
            Some(frac_end) => match exponent_end(s, frac_end) {
                None => None,
                Some(end) => Some(NumberSpan { int_end, end }),
            },
        },
    }
}

/// The number that the digits from `from` up to `to` write.
pub open spec fn digits_value(s: Seq<u8>, from: int, to: int) -> int
    decreases to - from,
{
    if to <= from {
        0
    } else {
        digits_value(s, from, to - 1) * 10 + (s[to - 1] - 0x30)
    }
}

/// The integer that a literal without fraction and exponent writes, which
/// starts at `at` and ends at `end`.
pub open spec fn literal_value(s: Seq<u8>, at: int, end: int) -> int {
    if s[at] == MINUS {
        -digits_value(s, at + 1, end)
    } else {
        digits_value(s, at, end)
    }
}

/// The integer fits in 64 bits.
pub open spec fn fits_i64(v: int) -> bool {
    i64::MIN <= v <= i64::MAX
}

/// The number literal at `at` is read as an integer: it has neither
/// fraction nor exponent, and its value fits in 64 bits.
pub open spec fn reads_as_int(s: Seq<u8>, at: int, span: NumberSpan) -> bool {
    span.int_end == span.end && fits_i64(literal_value(s, at, span.end))
}

/// `text` is, as a whole, a number literal that is not read as an integer.
pub open spec fn is_float_literal(text: Seq<u8>) -> bool {
    match number_span(text, 0) {
        None => false,
        Some(span) => span.end == text.len() && !reads_as_int(text, 0, span),
    }
}

/// The decimal digits of a natural number, without leading zeros.
pub open spec fn nat_text(n: nat) -> Seq<u8>
    decreases n,
{
    if n < 10 {
        seq![(0x30 + n) as u8]
    } else {
        nat_text(n / 10).push((0x30 + n % 10) as u8)
    }
}

/// The decimal text of an integer.
pub open spec fn int_text(v: int) -> Seq<u8> {
    if v < 0 {
        seq![MINUS] + nat_text((-v) as nat)
    } else {
        nat_text(v as nat)
    }
}

/// The run of digits from `from` ends at `digits_end`, within the text.
pub proof fn lemma_digits_end(s: Seq<u8>, from: int)
    requires
        0 <= from <= s.len(),
    ensures
        from <= digits_end(s, from) <= s.len(),
        forall|i: int| from <= i < digits_end(s, from) ==> is_digit(#[trigger] s[i]),
        digits_end(s, from) < s.len() ==> !is_digit(s[digits_end(s, from)]),
    decreases s.len() - from,
{
    if from < s.len() && is_digit(s[from]) {
        lemma_digits_end(s, from + 1);
    }
}

/// More digits write a number that is not smaller.
pub proof fn lemma_digits_value_grows(s: Seq<u8>, from: int, mid: int, to: int)
    requires
        0 <= from <= mid <= to <= s.len(),
        forall|i: int| from <= i < to ==> is_digit(#[trigger] s[i]),
    ensures
        0 <= digits_value(s, from, mid) <= digits_value(s, from, to),
    decreases to - mid,
{
    lemma_digits_value_nonneg(s, from, mid);
    if mid < to {
        lemma_digits_value_grows(s, from, mid, to - 1);
        assert(is_digit(s[to - 1]));
    }
}

/// Digits write a number that is not negative.
pub proof fn lemma_digits_value_nonneg(s: Seq<u8>, from: int, to: int)
    requires
        0 <= from <= to <= s.len(),
        forall|i: int| from <= i < to ==> is_digit(#[trigger] s[i]),
    ensures
        0 <= digits_value(s, from, to),
    decreases to - from,
{
    if from < to {
        lemma_digits_value_nonneg(s, from, to - 1);
        assert(is_digit(s[to - 1]));
    }
}

/// A byte that, right behind a number literal, would make the literal go
/// on or turn it into a malformed one.
pub open spec fn continues_number(b: u8) -> bool {
    is_digit(b) || b == DOT || b == LOWER_E || b == UPPER_E
}

/// The `len` bytes of `a` from `at` are the `len` bytes of `b` from `bt`.
pub open spec fn same_window(a: Seq<u8>, at: int, b: Seq<u8>, bt: int, len: int) -> bool {
    &&& 0 <= at
    &&& 0 <= bt
    &&& 0 <= len
    &&& at + len <= a.len()
    &&& bt + len <= b.len()
    &&& forall|i: int| at <= i < at + len ==> #[trigger] a[i] == b[i - at + bt]
}

/// A run of digits that lies in a window shared by two texts ends at the
/// same place in both, if no digit follows the window in the second.
pub proof fn lemma_digits_end_window(
    a: Seq<u8>,
    at: int,
    b: Seq<u8>,
    bt: int,
    len: int,
    from: int,
)
    requires
        same_window(a, at, b, bt, len),
        0 <= from <= len,
        digits_end(a, at + from) <= at + len,
        bt + len == b.len() || !is_digit(b[bt + len]),
    ensures
        digits_end(b, bt + from) == digits_end(a, at + from) - at + bt,
    decreases len - from,
{
    if from < len {
        assert(a[at + from] == b[bt + from]);
        if is_digit(a[at + from]) {
            lemma_digits_end(a, at + from + 1);
            lemma_digits_end_window(a, at, b, bt, len, from + 1);
        }
    } else {
        lemma_digits_end(a, at + from);
    }
}

/// Digits in a window shared by two texts write the same number in both.
pub proof fn lemma_digits_value_window(
    a: Seq<u8>,
    at: int,
    b: Seq<u8>,
    bt: int,
    len: int,
    from: int,
    to: int,
)
    requires
        same_window(a, at, b, bt, len),
        0 <= from <= to <= len,
    ensures
        digits_value(b, bt + from, bt + to) == digits_value(a, at + from, at + to),
    decreases to - from,
{
    if from < to {
        lemma_digits_value_window(a, at, b, bt, len, from, to - 1);
        assert(a[at + (to - 1)] == b[bt + (to - 1)]);
    }
}

/// A number literal that fills a window shared by two texts is read in the
/// second as in the first, if what follows the window in the second does
/// not continue a number.
pub proof fn lemma_number_window(a: Seq<u8>, at: int, b: Seq<u8>, bt: int, len: int)
    requires
        same_window(a, at, b, bt, len),
        number_span(a, at) is Some,
        number_span(a, at)->0.end == at + len,
        bt + len == b.len() || !continues_number(b[bt + len]),
    ensures
        number_span(b, bt) == Some(
            NumberSpan { int_end: number_span(a, at)->0.int_end - at + bt, end: bt + len },
        ),
        reads_as_int(b, bt, number_span(b, bt)->0) == reads_as_int(a, at, number_span(a, at)->0),
        literal_value(b, bt, bt + len) == literal_value(a, at, at + len),
{
    let span = number_span(a, at)->0;
    let start = digits_start(a, at);
    lemma_number_span_bounds(a, at);
    lemma_digits_end(a, start);
    assert(len > 0);
    assert(a[at + 0] == b[bt + 0]);
    let s0 = start - at;
    assert(a[at + s0] == b[bt + s0]);
    assert(digits_start(b, bt) == bt + s0);
    if a[start] != ZERO {
        lemma_digits_end_window(a, at, b, bt, len, s0);
    }
    let ie = span.int_end;
    let i0 = ie - at;
    assert(int_part_end(b, bt + s0) == Some(bt + i0));
    if i0 < len {
        assert(a[at + i0] == b[bt + i0]);
    }
    let fe = fraction_end(a, ie)->0;
    if ie < a.len() && a[ie] == DOT {
        lemma_digits_end(a, ie + 1);
        assert(a[at + (i0 + 1)] == b[bt + (i0 + 1)]);
        lemma_digits_end_window(a, at, b, bt, len, i0 + 1);
    }
    let f0 = fe - at;
    assert(fraction_end(b, bt + i0) == Some(bt + f0));
    if f0 < len {
        assert(a[at + f0] == b[bt + f0]);
    }
    if fe < a.len() && (a[fe] == LOWER_E || a[fe] == UPPER_E) {
        let digits = exponent_digits(a, fe);
        lemma_digits_end(a, digits);
        assert(a[at + (f0 + 1)] == b[bt + (f0 + 1)]);
        let d0 = digits - at;
        assert(a[at + d0] == b[bt + d0]);
        assert(exponent_digits(b, bt + f0) == bt + d0);
        lemma_digits_end_window(a, at, b, bt, len, d0);
    }
    assert(exponent_end(b, bt + f0) == Some(bt + len));
    lemma_digits_value_window(a, at, b, bt, len, 0, len);
    lemma_digits_value_window(a, at, b, bt, len, 1, len);
}

/// The text of a number literal that is not read as an integer is a float
/// literal.
pub proof fn lemma_float_literal(s: Seq<u8>, at: int)
    requires
        0 <= at,
        number_span(s, at) is Some,
        !reads_as_int(s, at, number_span(s, at)->0),
    ensures
        at < number_span(s, at)->0.end <= s.len(),
        is_float_literal(s.subrange(at, number_span(s, at)->0.end)),
{
    lemma_number_span_bounds(s, at);
    let end = number_span(s, at)->0.end;
    let text = s.subrange(at, end);
    lemma_number_window(s, at, text, 0, end - at);
}

/// A number literal is not empty, lies within the text, and its integer
/// part consists of digits.
pub proof fn lemma_number_span_bounds(s: Seq<u8>, at: int)
    requires
        0 <= at,
        number_span(s, at) is Some,
    ensures
        at <= digits_start(s, at) < number_span(s, at)->0.int_end <= number_span(s, at)->0.end
            <= s.len(),
        is_digit(s[digits_start(s, at)]),
        forall|i: int|
            digits_start(s, at) <= i < number_span(s, at)->0.int_end ==> is_digit(#[trigger] s[i]),
        fraction_end(s, number_span(s, at)->0.int_end) is Some,
        number_span(s, at)->0.int_end <= fraction_end(s, number_span(s, at)->0.int_end)->0
            <= number_span(s, at)->0.end,
        is_digit(s[number_span(s, at)->0.end - 1]),
{
    let start = digits_start(s, at);
    lemma_digits_end(s, start);
    lemma_digits_end(s, start + 1);
    let ie = int_part_end(s, start)->0;
    if ie < s.len() && s[ie] == DOT {
        lemma_digits_end(s, ie + 1);
    }
    let fe = fraction_end(s, ie)->0;
    if fe < s.len() && (s[fe] == LOWER_E || s[fe] == UPPER_E) {
        lemma_digits_end(s, exponent_digits(s, fe));
    }
}

/// A byte that can stand in a number literal.
pub open spec fn number_byte(b: u8) -> bool {
    is_digit(b) || b == MINUS || b == PLUS || b == DOT || b == LOWER_E || b == UPPER_E
}

/// A number literal consists of digits, signs, a point and an `e`.
pub proof fn lemma_number_bytes(s: Seq<u8>, at: int)
    requires
        0 <= at,
        number_span(s, at) is Some,
    ensures
        forall|i: int| at <= i < number_span(s, at)->0.end ==> number_byte(#[trigger] s[i]),
{
    lemma_number_span_bounds(s, at);
    let start = digits_start(s, at);
    let ie = int_part_end(s, start)->0;
    let fe = fraction_end(s, ie)->0;
    let end = number_span(s, at)->0.end;
    if ie < s.len() && s[ie] == DOT {
        lemma_digits_end(s, ie + 1);
    }
    if fe < s.len() && (s[fe] == LOWER_E || s[fe] == UPPER_E) {
        lemma_digits_end(s, exponent_digits(s, fe));
    }
    assert forall|i: int| at <= i < end implies number_byte(#[trigger] s[i]) by {
        if i < start {
        } else if i < ie {
        } else if i < fe {
            if i > ie {
                assert(is_digit(s[i]));
            }
        } else {
            let digits = exponent_digits(s, fe);
            if i >= digits {
                assert(is_digit(s[i]));
            }
        }
    }
}

/// Skips the digits that start at byte `at` of `bytes`.
fn skip_digits(bytes: &[u8], at: usize) -> (end: usize)
    requires
        at <= bytes@.len(),
    ensures
        end == digits_end(bytes@, at as int),
        at <= end <= bytes@.len(),
{
    let n = bytes.len();
    let mut end = at;
    while end < n && 0x30 <= bytes[end] && bytes[end] <= 0x39
        invariant
            n == bytes@.len(),
            at <= end <= n,
            digits_end(bytes@, end as int) == digits_end(bytes@, at as int),
        decreases n - end,
    {
        end = end + 1;
    }
    end
}

/// Finds the number literal that starts at byte `at` of `input`: the end of
/// its integer part and its own end.
pub fn scan_number(input: &str, at: usize) -> (r: Option<(usize, usize)>)
    ensures
        match r {
            Some((int_end, end)) => {
                &&& number_span(input.spec_bytes(), at as int) == Some(
                    NumberSpan { int_end: int_end as int, end: end as int },
                )
                &&& at < int_end <= end <= input.spec_bytes().len()
            },
            None => number_span(input.spec_bytes(), at as int) is None,
        },
{
    let bytes = input.as_bytes();
    let n = bytes.len();
    if at >= n {
        return None;
    }
    let start = if bytes[at] == MINUS {
        at + 1
    } else {
        at
    };
    if start >= n || !(0x30 <= bytes[start] && bytes[start] <= 0x39) {
        return None;
    }
    let int_end = if bytes[start] == ZERO {
        start + 1
    } else {
        skip_digits(bytes, start)
    };
    proof {
        lemma_digits_end(bytes@, start + 1);
        if int_end + 2 <= n {
            lemma_digits_end(bytes@, int_end + 2);
        }
    }
    let frac_end = if int_end < n && bytes[int_end] == DOT {
        if int_end + 1 < n && 0x30 <= bytes[int_end + 1] && bytes[int_end + 1] <= 0x39 {
            skip_digits(bytes, int_end + 1)
        } else {
            return None;
        }
    } else {
        int_end
    };
    if frac_end < n && (bytes[frac_end] == LOWER_E || bytes[frac_end] == UPPER_E) {
        let digits = if frac_end + 1 < n && (bytes[frac_end + 1] == PLUS || bytes[frac_end + 1]
            == MINUS) {
            frac_end + 2
        } else {
            frac_end + 1
        };
        if digits < n && 0x30 <= bytes[digits] && bytes[digits] <= 0x39 {
            proof {
                lemma_digits_end(bytes@, digits + 1);
            }
            Some((int_end, skip_digits(bytes, digits)))
        } else {
            None
        }
    } else {
        Some((int_end, frac_end))
    }
}

/// The integer that the literal from byte `at` to byte `end` of `input`
/// writes, if it fits in an `i64`. The literal has neither fraction nor
/// exponent.
pub fn read_int(input: &str, at: usize, end: usize) -> (r: Option<i64>)
    requires
        at < end <= input.spec_bytes().len(),
        forall|i: int|
            digits_start(input.spec_bytes(), at as int) <= i < end ==> is_digit(
                #[trigger] input.spec_bytes()[i],
            ),
    ensures
        match r {
            Some(v) => v == literal_value(input.spec_bytes(), at as int, end as int),
            None => !fits_i64(literal_value(input.spec_bytes(), at as int, end as int)),
        },
{
    let bytes = input.as_bytes();
    let ghost all = bytes@;
    let negative = bytes[at] == MINUS;
    let start = if negative {
        at + 1
    } else {
        at
    };
    let mut magnitude: u64 = 0;
    let mut i = start;
    while i < end
        invariant
            all == bytes@,
            all == input.spec_bytes(),
            at < end,
            start == digits_start(all, at as int),
            start <= i <= end <= all.len(),
            forall|k: int| start <= k < end ==> is_digit(#[trigger] all[k]),
            magnitude == digits_value(all, start as int, i as int),
        decreases end - i,
    {
        let d = (bytes[i] - 0x30) as u64;
        if magnitude > 1844674407370955160 {
            proof {
                lemma_digits_value_grows(all, start as int, i + 1, end as int);
                assert(digits_value(all, start as int, i + 1) == magnitude * 10 + d);
            }
            return None;
        }
        magnitude = magnitude * 10 + d;
        i = i + 1;
    }
    if negative {
        if magnitude > 9223372036854775808 {
            None
        } else if magnitude == 9223372036854775808 {
            Some(i64::MIN)
        } else {
            Some(-(magnitude as i64))
        }
    } else {
        if magnitude > 9223372036854775807 {
            None
        } else {
            Some(magnitude as i64)
        }
    }
}

/// Writes the decimal digits of `n` at the end of `out`.
fn push_nat(out: &mut String, n: u64)
    ensures
        encode_utf8(final(out)@) == encode_utf8(old(out)@) + nat_text(n as nat),
    decreases n,
{
    let ghost before = encode_utf8(out@);
    if n >= 10 {
        push_nat(out, n / 10);
    }
    push_ascii(out, 0x30 + (n % 10) as u8);
    proof {
        assert(encode_utf8(out@) =~= before + nat_text(n as nat));
    }
}

/// Writes the decimal text of `v` at the end of `out`.
pub fn push_int(out: &mut String, v: i64)
    ensures
        encode_utf8(final(out)@) == encode_utf8(old(out)@) + int_text(v as int),
{
    let ghost before = encode_utf8(out@);
    if v < 0 {
        push_ascii(out, MINUS);
        let magnitude: u64 = if v == i64::MIN {
            9223372036854775808
        } else {
            (-v) as u64
        };
        push_nat(out, magnitude);
        proof {
            assert(encode_utf8(out@) =~= before + int_text(v as int));
        }
    } else {
        push_nat(out, v as u64);
    }
}

} // verus!
