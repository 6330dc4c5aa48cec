//! The text codec: escaping and unescaping with searchers that are built
//! once and used for many texts.

use crate::error::ParseError;
use crate::escape::{escape_pattern_list, escape_patterns, escape_with, escaped};
use crate::search::{build_searcher, searcher_patterns, Searcher};
use crate::unescape::{
    plain_run, scan, unescape_pattern_list, unescape_patterns, unescape_with, unescaped,
};
use std::borrow::Cow;
use vstd::prelude::*;
use vstd::string::*;
use vstd::utf8::*;

verus! {

/// The two searchers of the text codec: one for the bytes that need an
/// escape, one for the escape sequences.
pub struct TextCodec {
    escaper: Searcher,
    unescaper: Searcher,
}

impl TextCodec {
    #[verifier::type_invariant]
    spec fn well_built(self) -> bool {
        &&& searcher_patterns(self.escaper) == escape_patterns()
        &&& searcher_patterns(self.unescaper) == unescape_patterns()
    }

    /// The patterns that the codec looks for when it escapes.
    pub closed spec fn escaper_patterns(&self) -> Seq<Seq<u8>> {
        searcher_patterns(self.escaper)
    }

    /// The patterns that the codec looks for when it unescapes.
    pub closed spec fn unescaper_patterns(&self) -> Seq<Seq<u8>> {
        searcher_patterns(self.unescaper)
    }

    /// A codec, ready for use: one searcher built for the bytes that need
    /// an escape, each as a pattern of its own, and one for the nine escape
    /// sequences.
    pub fn new() -> (codec: Self)
        ensures
            codec.escaper_patterns() == escape_patterns(),
            codec.unescaper_patterns() == unescape_patterns(),
    {
        let escaper = build_searcher(&escape_pattern_list());
        let unescaper = build_searcher(&unescape_pattern_list());
        TextCodec { escaper, unescaper }
    }

    /// The escaped form of `input`: `input` itself, borrowed, where nothing
    /// in it needs an escape, else a new string.
    pub fn escape<'a>(&self, input: &'a str) -> (out: Cow<'a, str>)
        ensures
            encode_utf8(out@) == escaped(input.spec_bytes()),
            out is Borrowed <==> escaped(input.spec_bytes()) == input.spec_bytes(),
    {
        proof {
            use_type_invariant(self);
        }
        escape_with(&self.escaper, input)
    }

    /// The text that the content of a string literal stands for: `input`
    /// itself, borrowed, where it holds no backslash, else a new string; or
    /// the first failure in it.
    pub fn unescape<'a>(&self, input: &'a str) -> (r: Result<Cow<'a, str>, ParseError>)
        ensures
            match r {
                Ok(out) => unescaped(input.spec_bytes()) == Ok::<Seq<u8>, ParseError>(
                    encode_utf8(out@),
                ),
                Err(e) => unescaped(input.spec_bytes()) == Err::<Seq<u8>, ParseError>(e),
            },
            r matches Ok(out) ==> (out is Borrowed <==> plain_run(
                input.spec_bytes(),
                0,
                input.spec_bytes().len() as int,
                false,
            )),
    {
        proof {
            use_type_invariant(self);
        }
        match scan(input, 0, false) {
            Err(e) => Err(e),
            Ok(_) => Ok(unescape_with(&self.unescaper, input)),
        }
    }

    /// The text of string content that `scan` has accepted.
    pub(crate) fn unescape_checked<'a>(&self, input: &'a str) -> (out: Cow<'a, str>)
        requires
            unescaped(input.spec_bytes()) is Ok,
        ensures
            unescaped(input.spec_bytes()) == Ok::<Seq<u8>, ParseError>(encode_utf8(out@)),
            out is Borrowed <==> plain_run(
                input.spec_bytes(),
                0,
                input.spec_bytes().len() as int,
                false,
            ),
    {
        proof {
            use_type_invariant(self);
        }
        unescape_with(&self.unescaper, input)
    }
}

/// The escaped form of `input`, with a codec made for this one call.
pub fn escape<'a>(input: &'a str) -> (out: Cow<'a, str>)
    ensures
        encode_utf8(out@) == escaped(input.spec_bytes()),
        out is Borrowed <==> escaped(input.spec_bytes()) == input.spec_bytes(),
{
    let codec = TextCodec::new();
    codec.escape(input)
}

/// The text that the content of a string literal stands for, with a codec
/// made for this one call.
pub fn unescape<'a>(input: &'a str) -> (r: Result<Cow<'a, str>, ParseError>)
    ensures
        match r {
            Ok(out) => unescaped(input.spec_bytes()) == Ok::<Seq<u8>, ParseError>(encode_utf8(out@)),
            Err(e) => unescaped(input.spec_bytes()) == Err::<Seq<u8>, ParseError>(e),
        },
        r matches Ok(out) ==> (out is Borrowed <==> plain_run(
            input.spec_bytes(),
            0,
            input.spec_bytes().len() as int,
            false,
        )),
{
    let codec = TextCodec::new();
    codec.unescape(input)
}

} // verus!
