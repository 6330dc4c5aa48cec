//! Escaping: from the text of a string to what stands between the quotes of
//! a JSON string literal.

use crate::search::{first_match, none_before, occurs_at, searcher_patterns, uniform, Searcher};
use crate::text::{lemma_ascii_cut, lemma_ends_cut, push_ascii, push_text, substr, substr_to_end, BACKSLASH, QUOTE};
use std::borrow::Cow;
use vstd::prelude::*;
use vstd::slice::*;
use vstd::string::*;
use vstd::utf8::*;

verus! {

/// The bytes that cannot stand for themselves in a string literal: the
/// quote, the backslash and the control characters U+0000 to U+001F.
pub open spec fn needs_escape(b: u8) -> bool {
    b == QUOTE || b == BACKSLASH || b < 0x20
}

/// The lower-case hexadecimal digit for a value below sixteen.
pub open spec fn hex_digit(v: int) -> u8 {
    if v < 10 {
        (0x30 + v) as u8
    } else {
        (0x57 + v) as u8
    }
}

/// How one byte is written in a string literal: the shortest escape that
/// JSON has for it, `\u00xx` where it has no short one, the byte itself
/// where it needs none.
pub open spec fn escape_byte(b: u8) -> Seq<u8> {
    if b == QUOTE {
        seq![BACKSLASH, QUOTE]
    } else if b == BACKSLASH {
        seq![BACKSLASH, BACKSLASH]
    } else if b == 0x08 {
        seq![BACKSLASH, 0x62u8]
    } else if b == 0x09 {
        seq![BACKSLASH, 0x74u8]
    } else if b == 0x0A {
        seq![BACKSLASH, 0x6Eu8]
    } else if b == 0x0C {
        seq![BACKSLASH, 0x66u8]
    } else if b == 0x0D {
        seq![BACKSLASH, 0x72u8]
    } else if b < 0x20 {
        seq![BACKSLASH, 0x75u8, 0x30u8, 0x30u8, hex_digit(b as int / 16), hex_digit(b as int % 16)]
    } else {
        seq![b]
    }
}

/// The escaped form of a text: each byte written as `escape_byte` says.
pub open spec fn escaped(s: Seq<u8>) -> Seq<u8>
    decreases s.len(),
{
    if s.len() == 0 {
        Seq::<u8>::empty()
    } else {
        escape_byte(s[0]) + escaped(s.drop_first())
    }
}

/// The byte that the escaper's pattern number `k` consists of.
pub open spec fn escape_pattern_byte(k: int) -> u8 {
    if k == 0 {
        QUOTE
    } else if k == 1 {
        BACKSLASH
    } else {
        (k - 2) as u8
    }
}

/// What the escaper looks for: each byte that needs an escape, as a pattern
/// of its own.
pub open spec fn escape_patterns() -> Seq<Seq<u8>> {
    Seq::new(34, |k: int| seq![escape_pattern_byte(k)])
}

/// Escaping goes through a concatenation.
pub proof fn lemma_escaped_concat(a: Seq<u8>, b: Seq<u8>)
    ensures
        escaped(a + b) == escaped(a) + escaped(b),
    decreases a.len(),
{
    if a.len() == 0 {
        assert(a + b =~= b);
        assert(escaped(a) + escaped(b) =~= escaped(b));
    } else {
        lemma_escaped_concat(a.drop_first(), b);
        assert((a + b).drop_first() =~= a.drop_first() + b);
        assert((a + b)[0] == a[0]);
        assert(escaped(a + b) =~= escaped(a) + escaped(b));
    }
}

/// A text in which no byte needs an escape is its own escaped form.
pub proof fn lemma_escaped_plain(a: Seq<u8>)
    requires
        forall|i: int| 0 <= i < a.len() ==> !needs_escape(#[trigger] a[i]),
    ensures
        escaped(a) == a,
    decreases a.len(),
{
    if a.len() > 0 {
        lemma_escaped_plain(a.drop_first());
        assert(escaped(a) =~= a);
    }
}

/// An escaped text is at least as long as the text, and longer where a
/// byte of the text needs an escape.
pub proof fn lemma_escaped_len(a: Seq<u8>)
    ensures
        escaped(a).len() >= a.len(),
        (exists|i: int| 0 <= i < a.len() && needs_escape(#[trigger] a[i])) ==> escaped(a).len()
            > a.len(),
    decreases a.len(),
{
    if a.len() > 0 {
        let rest = a.drop_first();
        lemma_escaped_len(rest);
        if exists|i: int| 0 <= i < a.len() && needs_escape(#[trigger] a[i]) {
            let i = choose|i: int| 0 <= i < a.len() && needs_escape(#[trigger] a[i]);
            if i > 0 {
                assert(needs_escape(rest[i - 1]));
            }
        }
    }
}

/// Where no escaper pattern stands below `limit`, no byte below `limit`
/// needs an escape.
proof fn lemma_no_pattern_is_plain(hay: Seq<u8>, limit: int)
    requires
        none_before(escape_patterns(), hay, limit),
        limit <= hay.len(),
    ensures
        forall|i: int| 0 <= i < limit ==> !needs_escape(#[trigger] hay[i]),
{
    assert forall|i: int| 0 <= i < limit implies !needs_escape(#[trigger] hay[i]) by {
        let b = hay[i];
        if needs_escape(b) {
            let k: int = if b == QUOTE {
                0
            } else if b == BACKSLASH {
                1
            } else {
                b as int + 2
            };
            assert(escape_patterns()[k] =~= seq![b]);
            assert(hay.subrange(i, i + 1) =~= seq![b]);
            assert(occurs_at(escape_patterns()[k], hay, i));
        }
    }
}

/// The escaper's patterns are single bytes, all different.
proof fn lemma_escape_patterns_uniform()
    ensures
        uniform(escape_patterns(), 1),
{
    let p = escape_patterns();
    assert forall|j: int, k: int| 0 <= j < k < p.len() implies #[trigger] p[j] != #[trigger] p[k] by {
        assert(p[j][0] == escape_pattern_byte(j));
        assert(p[k][0] == escape_pattern_byte(k));
    }
}

/// The escaper's patterns, as the searcher takes them.
pub(crate) fn escape_pattern_list() -> (v: Vec<Vec<u8>>)
    ensures
        v.deep_view() == escape_patterns(),
{
    let mut v: Vec<Vec<u8>> = Vec::new();
    v.push(vec![QUOTE]);
    v.push(vec![BACKSLASH]);
    let mut c: u8 = 0;
    while c < 0x20
        invariant
            c <= 0x20,
            v@.len() == c + 2,
            forall|k: int| 0 <= k < v@.len() ==> (#[trigger] v@[k])@ == seq![escape_pattern_byte(k)],
        decreases 0x20 - c,
    {
        v.push(vec![c]);
        c = c + 1;
    }
    proof {
        assert(v.deep_view() =~= escape_patterns()) by {
            assert forall|k: int| 0 <= k < 34 implies v.deep_view()[k] == escape_patterns()[k] by {
                assert(v.deep_view()[k] == v@[k].deep_view());
                assert(v@[k].deep_view() =~= v@[k]@);
            }
        }
    }
    v
}

/// The hexadecimal digit for `v`, in lower case.
fn hex_digit_of(v: u8) -> (d: u8)
    requires
        v < 16,
    ensures
        d == hex_digit(v as int),
        d < 0x80,
{
    if v < 10 {
        0x30 + v
    } else {
        0x57 + v
    }
}

/// Writes the escape of `b` at the end of `out`.
fn push_escape(out: &mut String, b: u8)
    requires
        needs_escape(b),
    ensures
        encode_utf8(final(out)@) == encode_utf8(old(out)@) + escape_byte(b),
{
    let ghost before = encode_utf8(out@);
    push_ascii(out, BACKSLASH);
    if b == QUOTE {
        push_ascii(out, QUOTE);
    } else if b == BACKSLASH {
        push_ascii(out, BACKSLASH);
    } else if b == 0x08 {
        push_ascii(out, 0x62);
    } else if b == 0x09 {
        push_ascii(out, 0x74);
    } else if b == 0x0A {
        push_ascii(out, 0x6E);
    } else if b == 0x0C {
        push_ascii(out, 0x66);
    } else if b == 0x0D {
        push_ascii(out, 0x72);
    } else {
        push_ascii(out, 0x75);
        push_ascii(out, 0x30);
        push_ascii(out, 0x30);
        push_ascii(out, hex_digit_of(b / 16));
        push_ascii(out, hex_digit_of(b % 16));
    }
    proof {
        assert(encode_utf8(out@) =~= before + escape_byte(b));
    }
}

/// The escaped form of `input`: `input` itself, borrowed, where nothing in it
/// needs an escape, else a new string.
pub(crate) fn escape_with<'a>(searcher: &Searcher, input: &'a str) -> (out: Cow<'a, str>)
    requires
        searcher_patterns(*searcher) == escape_patterns(),
    ensures
        encode_utf8(out@) == escaped(input.spec_bytes()),
        out is Borrowed <==> escaped(input.spec_bytes()) == input.spec_bytes(),
{
    broadcast use encode_utf8_valid_utf8;

    let bytes = input.as_bytes();
    let n = bytes.len();
    let ghost all = bytes@;
    let mut res = String::new();
    let mut last: usize = 0;
    proof {
        lemma_escape_patterns_uniform();
        lemma_ends_cut(all);
        assert(all.subrange(0, n as int) =~= all);
        assert(encode_utf8(res@) =~= Seq::<u8>::empty());
    }
    loop
        invariant
            n == all.len(),
            all == bytes@,
            all == input.spec_bytes(),
            valid_utf8(all),
            last <= n,
            is_char_boundary(all, last as int),
            encode_utf8(res@) + escaped(all.subrange(last as int, n as int)) == escaped(all),
            last == 0 ==> res@.len() == 0,
            last > 0 ==> needs_escape(all[last - 1]),
            searcher_patterns(*searcher) == escape_patterns(),
            uniform(escape_patterns(), 1),
        ensures
            last <= n,
            is_char_boundary(all, last as int),
            encode_utf8(res@) + all.subrange(last as int, n as int) == escaped(all),
            last == 0 ==> res@.len() == 0,
            last > 0 ==> needs_escape(all[last - 1]),
        decreases n - last,
    {
        let rest = slice_subrange(bytes, last, n);
        let ghost tail = all.subrange(last as int, n as int);
        match first_match(searcher, rest) {
            None => {
                proof {
                    lemma_no_pattern_is_plain(tail, tail.len() as int);
                    lemma_escaped_plain(tail);
                }
                break ;
            },
            Some((k, s, e)) => {
                let start = last + s;
                let b = bytes[start];
                proof {
                    let pat = escape_patterns()[k as int];
                    assert(pat =~= seq![escape_pattern_byte(k as int)]);
                    assert(tail.subrange(s as int, s + 1)[0] == tail[s as int]);
                    assert(needs_escape(b));
                    lemma_ascii_cut(all, start as int);
                    lemma_no_pattern_is_plain(tail, s as int);
                    let gap = tail.subrange(0, s as int);
                    let after = tail.subrange(s as int, tail.len() as int);
                    lemma_escaped_plain(gap);
                    assert(tail =~= gap + after);
                    lemma_escaped_concat(gap, after);
                    assert(after.drop_first() =~= all.subrange(start + 1, n as int));
                    assert(gap =~= all.subrange(last as int, start as int));
                }
                push_text(&mut res, substr(input, last, start));
                push_escape(&mut res, b);
                last = start + 1;
                proof {
                    assert(encode_utf8(res@) + escaped(all.subrange(last as int, n as int))
                        =~= escaped(all));
                }
            },
        }
    }
    if last == 0 {
        proof {
            assert(all.subrange(0, n as int) =~= all);
            assert(encode_utf8(res@) =~= Seq::<u8>::empty());
            assert(escaped(all) =~= all);
        }
        Cow::Borrowed(input)
    } else {
        proof {
            lemma_escaped_len(all);
        }
        push_text(&mut res, substr_to_end(input, last));
        Cow::Owned(res)
    }
}

} // verus!
