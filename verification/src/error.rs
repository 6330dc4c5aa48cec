//! What a failed parse reports.

use vstd::prelude::*;

verus! {

/// The kinds of failure.
#[derive(Clone, Copy, Debug, PartialEq, Eq, Structural)]
pub enum ErrorKind {
    /// The input matches no production at this place: an unexpected byte, a
    /// missing closing bracket or quote, a separator with no item behind it,
    /// a malformed number, or no value at all.
    Syntax,
    /// An escape sequence in a string is unknown or incomplete, or a UTF-16
    /// surrogate stands alone or in the wrong order.
    Escape,
    /// A value was read, and text other than whitespace follows it.
    TrailingData,
}

/// A failure: its kind, the byte offset in the input at which it was found,
/// and whether the production had already committed to its opening token
/// (`fatal`), in which case no other production is tried.
#[derive(Clone, Copy, Debug, PartialEq, Eq, Structural)]
pub struct ParseError {
    pub kind: ErrorKind,
    pub offset: usize,
    pub fatal: bool,
}

/// A failure that lets the next production be tried.
pub open spec fn soft(kind: ErrorKind, at: int) -> ParseError {
    ParseError { kind, offset: at as usize, fatal: false }
}

/// A failure that ends the parse.
pub open spec fn hard(kind: ErrorKind, at: int) -> ParseError {
    ParseError { kind, offset: at as usize, fatal: true }
}

/// The same failure, made final.
pub open spec fn committed(e: ParseError) -> ParseError {
    ParseError { kind: e.kind, offset: e.offset, fatal: true }
}

impl ParseError {
    /// A failure of the given kind at the given offset.
    pub fn new(kind: ErrorKind, offset: usize, fatal: bool) -> (e: Self)
        ensures
            e == (ParseError { kind, offset, fatal }),
    {
        ParseError { kind, offset, fatal }
    }

    /// This failure, made final.
    pub fn commit(self) -> (e: Self)
        ensures
            e == committed(self),
    {
        ParseError { kind: self.kind, offset: self.offset, fatal: true }
    }
}

} // verus!
