//! Indentation: a writer that puts four spaces in front of whatever follows
//! a line break.

use crate::text::{
    lemma_ascii_cut, lemma_ends_cut, push_ascii, push_text, substr, NEWLINE, SPACE,
};
use vstd::prelude::*;
use vstd::string::*;
use vstd::utf8::*;

verus! {

/// One step of indentation: four spaces.
pub open spec fn indent_unit() -> Seq<u8> {
    seq![SPACE, SPACE, SPACE, SPACE]
}

/// What stands in front of a byte: the indentation, where the byte follows
/// a line break.
pub open spec fn margin(on_newline: bool) -> Seq<u8> {
    if on_newline {
        indent_unit()
    } else {
        Seq::<u8>::empty()
    }
}

/// The text `s` with four spaces in front of every byte that follows a line
/// break; `on_newline` says whether the first byte does.
pub open spec fn indented(s: Seq<u8>, on_newline: bool) -> Seq<u8>
    decreases s.len(),
{
    if s.len() == 0 {
        Seq::<u8>::empty()
    } else {
        margin(on_newline) + seq![s[0]] + indented(s.drop_first(), s[0] == NEWLINE)
    }
}

/// Whether what comes next follows a line break, after `s` was written.
pub open spec fn ends_line(s: Seq<u8>, on_newline: bool) -> bool {
    if s.len() == 0 {
        on_newline
    } else {
        s.last() == NEWLINE
    }
}

/// Indenting goes through a concatenation.
pub proof fn lemma_indented_concat(a: Seq<u8>, b: Seq<u8>, on_newline: bool)
    ensures
        indented(a + b, on_newline) == indented(a, on_newline) + indented(
            b,
            ends_line(a, on_newline),
        ),
    decreases a.len(),
{
    if a.len() == 0 {
        assert(a + b =~= b);
        assert(indented(a, on_newline) + indented(b, on_newline) =~= indented(b, on_newline));
    } else {
        let rest = a.drop_first();
        lemma_indented_concat(rest, b, a[0] == NEWLINE);
        assert((a + b).drop_first() =~= rest + b);
        assert((a + b)[0] == a[0]);
        if rest.len() > 0 {
            assert(rest.last() == a.last());
        }
        assert(indented(a + b, on_newline) =~= indented(a, on_newline) + indented(
            b,
            ends_line(a, on_newline),
        ));
    }
}

/// A text with no line break before its last byte is indented by its margin
/// alone.
pub proof fn lemma_indented_line(a: Seq<u8>, on_newline: bool)
    requires
        a.len() > 0,
        forall|i: int| 0 <= i < a.len() - 1 ==> a[i] != NEWLINE,
    ensures
        indented(a, on_newline) == margin(on_newline) + a,
    decreases a.len(),
{
    let rest = a.drop_first();
    if rest.len() > 0 {
        assert forall|i: int| 0 <= i < rest.len() - 1 implies rest[i] != NEWLINE by {
            assert(rest[i] == a[i + 1]);
        }
        lemma_indented_line(rest, false);
        assert(margin(false) + rest =~= rest);
        assert(indented(a, on_newline) =~= margin(on_newline) + a);
    } else {
        assert(indented(rest, a[0] == NEWLINE) =~= Seq::<u8>::empty());
        assert(indented(a, on_newline) =~= margin(on_newline) + a);
    }
}

/// A writer over a `String` that indents what it is given.
pub struct PadAdapter {
    sink: String,
    on_newline: bool,
}

impl PadAdapter {
    /// What has been written, as bytes.
    pub closed spec fn text(&self) -> Seq<u8> {
        encode_utf8(self.sink@)
    }

    /// Whether what is written next follows a line break.
    pub closed spec fn at_line_start(&self) -> bool {
        self.on_newline
    }

    /// A writer that adds to `sink`; what it writes first is not indented.
    pub fn from(sink: String) -> (pad: Self)
        ensures
            pad.text() == encode_utf8(sink@),
            !pad.at_line_start(),
    {
        PadAdapter { sink, on_newline: false }
    }

    /// Says that what is written next follows a line break: the sink ends
    /// with one.
    pub fn mark_line_start(&mut self)
        ensures
            final(self).text() == old(self).text(),
            final(self).at_line_start(),
    {
        self.on_newline = true;
    }

    /// Writes `s`, with four spaces in front of every byte of it that
    /// follows a line break.
    pub fn write_str(&mut self, s: &str)
        ensures
            final(self).text() == old(self).text() + indented(
                s.spec_bytes(),
                old(self).at_line_start(),
            ),
            final(self).at_line_start() == ends_line(s.spec_bytes(), old(self).at_line_start()),
    {
        broadcast use encode_utf8_valid_utf8;

        let bytes = s.as_bytes();
        let n = bytes.len();
        let ghost all = bytes@;
        let ghost goal = self.text() + indented(all, self.on_newline);
        let ghost first = self.on_newline;
        let mut at: usize = 0;
        proof {
            lemma_ends_cut(all);
            assert(all.subrange(0, n as int) =~= all);
            assert(all.subrange(0, 0) =~= Seq::<u8>::empty());
        }
        while at < n
            invariant
                n == all.len(),
                all == bytes@,
                all == s.spec_bytes(),
                valid_utf8(all),
                at <= n,
                is_char_boundary(all, at as int),
                is_char_boundary(all, n as int),
                encode_utf8(self.sink@) + indented(all.subrange(at as int, n as int), self.on_newline)
                    == goal,
                self.on_newline == ends_line(all.subrange(0, at as int), first),
            decreases n - at,
        {
            let ghost before = encode_utf8(self.sink@);
            let ghost was = self.on_newline;
            if self.on_newline {
                push_ascii(&mut self.sink, SPACE);
                push_ascii(&mut self.sink, SPACE);
                push_ascii(&mut self.sink, SPACE);
                push_ascii(&mut self.sink, SPACE);
            }
            proof {
                assert(encode_utf8(self.sink@) =~= before + margin(was));
            }
            let mut end = at;
            while end < n && bytes[end] != NEWLINE
                invariant
                    n == all.len(),
                    all == bytes@,
                    at <= end <= n,
                    forall|i: int| at <= i < end ==> all[i] != NEWLINE,
                decreases n - end,
            {
                end = end + 1;
            }
            let split = if end < n {
                end + 1
            } else {
                n
            };
            proof {
                if end < n {
                    lemma_ascii_cut(all, end as int);
                }
                let line = all.subrange(at as int, split as int);
                let rest = all.subrange(split as int, n as int);
                assert(all.subrange(at as int, n as int) =~= line + rest);
                lemma_indented_concat(line, rest, was);
                lemma_indented_line(line, was);
                assert(all.subrange(0, split as int).last() == line.last());
                assert(before + margin(was) + line + indented(rest, ends_line(line, was))
                    =~= before + (margin(was) + line + indented(rest, ends_line(line, was))));
            }
            self.on_newline = end < n;
            push_text(&mut self.sink, substr(s, at, split));
            at = split;
        }
        proof {
            assert(all.subrange(n as int, n as int) =~= Seq::<u8>::empty());
            assert(encode_utf8(self.sink@) + Seq::<u8>::empty() =~= encode_utf8(self.sink@));
        }
    }

    /// Gives back the string that was written to.
    pub fn into_inner(self) -> (sink: String)
        ensures
            encode_utf8(sink@) == self.text(),
    {
        self.sink
    }
}

} // verus!
