//! Strings seen as UTF-8 byte sequences: cutting `&str` at byte offsets and
//! growing a `String`, with contracts stated over bytes.

use vstd::prelude::*;
use vstd::utf8::*;
use vstd::string::*;

verus! {

/// `"`
pub const QUOTE: u8 = 0x22;

/// `\`
pub const BACKSLASH: u8 = 0x5C;

/// `/`
pub const SLASH: u8 = 0x2F;

/// `[`
pub const OPEN_BRACKET: u8 = 0x5B;

/// `]`
pub const CLOSE_BRACKET: u8 = 0x5D;

/// `{`
pub const OPEN_BRACE: u8 = 0x7B;

/// `}`
pub const CLOSE_BRACE: u8 = 0x7D;

/// `,`
pub const COMMA: u8 = 0x2C;

/// `:`
pub const COLON: u8 = 0x3A;

/// The space.
pub const SPACE: u8 = 0x20;

/// The line break.
pub const NEWLINE: u8 = 0x0A;

/// `String::push` of std: the character is added at the end of the string.
pub assume_specification[ std::string::String::push ](s: &mut std::string::String, c: char)
    ensures
        final(s)@ == old(s)@.push(c),
;

/// The UTF-8 encoding of a concatenation is the concatenation of the encodings.
pub proof fn lemma_encode_concat(a: Seq<char>, b: Seq<char>)
    ensures
        encode_utf8(a + b) == encode_utf8(a) + encode_utf8(b),
    decreases a.len(),
{
    if a.len() == 0 {
        assert(a + b =~= b);
        assert(encode_utf8(a) =~= Seq::<u8>::empty());
        assert(encode_utf8(a) + encode_utf8(b) =~= encode_utf8(b));
    } else {
        lemma_encode_concat(a.drop_first(), b);
        assert((a + b).drop_first() =~= a.drop_first() + b);
        assert((a + b)[0] == a[0]);
        assert(encode_utf8(a + b) =~= encode_utf8(a) + encode_utf8(b));
    }
}

/// The encoding of a one-character string whose character is ASCII is that one byte.
pub proof fn lemma_encode_ascii(b: u8)
    requires
        b < 0x80,
    ensures
        encode_utf8(seq![b as char]) == seq![b],
{
    let c = b as char;
    let v = c as u32;
    assert(v == b as u32);
    assert((v & 0x7F) as u8 == b) by (bit_vector)
        requires
            v == b as u32,
            b < 0x80,
    ;
    let s = seq![c];
    assert(s.drop_first() =~= Seq::<char>::empty());
    assert(encode_utf8(s.drop_first()) =~= Seq::<u8>::empty());
    assert(encode_utf8(s) =~= seq![b]);
}

/// In valid UTF-8 an ASCII byte is a whole character: the text may be cut
/// before it and after it.
pub proof fn lemma_ascii_cut(bytes: Seq<u8>, i: int)
    requires
        valid_utf8(bytes),
        0 <= i < bytes.len(),
        bytes[i] < 0x80,
    ensures
        is_char_boundary(bytes, i),
        is_char_boundary(bytes, i + 1),
{
    is_char_boundary_iff_is_leading_byte(bytes, i);
    valid_utf8_split(bytes, i);
    let tail = bytes.subrange(i, bytes.len() as int);
    assert(tail[0] == bytes[i]);
    assert(valid_first_scalar(tail));
    assert(length_of_first_scalar(tail) == 1);
    if i + 1 == bytes.len() {
        is_char_boundary_start_end_of_seq(bytes);
    } else {
        let rest = pop_first_scalar(tail);
        assert(valid_utf8(rest));
        assert(rest.len() > 0);
        assert(valid_first_scalar(rest));
        assert(rest[0] == bytes[i + 1]);
        is_char_boundary_iff_is_leading_byte(rest, 0);
        is_char_boundary_iff_is_leading_byte(bytes, i + 1);
    }
}

/// Both ends of a text are places where it may be cut.
pub proof fn lemma_ends_cut(bytes: Seq<u8>)
    requires
        valid_utf8(bytes),
    ensures
        is_char_boundary(bytes, 0),
        is_char_boundary(bytes, bytes.len() as int),
{
    is_char_boundary_start_end_of_seq(bytes);
}

/// The part of `s` from byte `from` up to byte `to`, borrowed from `s`.
pub fn substr<'a>(s: &'a str, from: usize, to: usize) -> (r: &'a str)
    requires
        from <= to <= s.spec_bytes().len(),
        is_char_boundary(s.spec_bytes(), from as int),
        is_char_boundary(s.spec_bytes(), to as int),
    ensures
        r.spec_bytes() == s.spec_bytes().subrange(from as int, to as int),
{
    broadcast use encode_utf8_valid_utf8;

    let ghost bytes = s.spec_bytes();
    let (head, _) = s.split_at(to);
    proof {
        valid_utf8_split(bytes, to as int);
        let h = bytes.subrange(0, to as int);
        assert(head.spec_bytes() == h);
        if from < to {
            is_char_boundary_iff_not_is_continuation_byte(bytes, from as int);
            is_char_boundary_iff_not_is_continuation_byte(h, from as int);
        } else {
            is_char_boundary_start_end_of_seq(h);
        }
    }
    let (_, mid) = head.split_at(from);
    proof {
        assert(mid.spec_bytes() =~= bytes.subrange(from as int, to as int));
    }
    mid
}

/// The part of `s` from byte `from` to its end, borrowed from `s`.
pub fn substr_to_end<'a>(s: &'a str, from: usize) -> (r: &'a str)
    requires
        from <= s.spec_bytes().len(),
        is_char_boundary(s.spec_bytes(), from as int),
    ensures
        r.spec_bytes() == s.spec_bytes().subrange(from as int, s.spec_bytes().len() as int),
{
    let (_, tail) = s.split_at(from);
    tail
}

/// Adds the text `s` at the end of `out`.
pub fn push_text(out: &mut String, s: &str)
    ensures
        encode_utf8(final(out)@) == encode_utf8(old(out)@) + s.spec_bytes(),
{
    proof {
        lemma_encode_concat(out@, s@);
    }
    out.append(s);
}

/// Adds the ASCII character with code `b` at the end of `out`.
pub fn push_ascii(out: &mut String, b: u8)
    requires
        b < 0x80,
    ensures
        encode_utf8(final(out)@) == encode_utf8(old(out)@).push(b),
{
    proof {
        lemma_encode_concat(out@, seq![b as char]);
        lemma_encode_ascii(b);
        assert(out@.push(b as char) =~= out@ + seq![b as char]);
        assert(encode_utf8(out@).push(b) =~= encode_utf8(out@) + seq![b]);
    }
    out.push(b as char);
}

} // verus!
