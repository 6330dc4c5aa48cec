//! The grammar of JSON text, as functions from a text and a place in it to
//! what is read there.

use crate::error::{committed, hard, soft, ErrorKind, ParseError};
use crate::model::{members_of, Model};
use crate::number::{number_span, reads_as_int, literal_value};
use crate::render::{false_text, null_text, true_text};
use crate::text::{CLOSE_BRACE, CLOSE_BRACKET, COLON, COMMA, OPEN_BRACE, OPEN_BRACKET, QUOTE};
use crate::unescape::{decoded, scan_text};
use vstd::prelude::*;

verus! {

/// Insignificant whitespace: space, tab, line feed, carriage return.
pub open spec fn is_space(b: u8) -> bool {
    b == 0x20 || b == 0x09 || b == 0x0A || b == 0x0D
}

/// The first place from `at` on that holds no whitespace.
pub open spec fn skip_spaces(s: Seq<u8>, at: int) -> int
    decreases s.len() - at,
{
    if 0 <= at < s.len() && is_space(s[at]) {
        skip_spaces(s, at + 1)
    } else {
        at
    }
}

/// `word` stands in `s` at `at`.
pub open spec fn starts_with(s: Seq<u8>, at: int, word: Seq<u8>) -> bool {
    &&& 0 <= at
    &&& at + word.len() <= s.len()
    &&& s.subrange(at, at + word.len()) == word
}

/// What a production reads: a value and the place behind it, or a failure.
pub type Parsed = Result<(Model, int), ParseError>;

/// The first of two readings that succeeds or fails for good.
pub open spec fn or_else(first: Parsed, second: Parsed) -> Parsed {
    match first {
        Ok(_) => first,
        Err(e) => if e.fatal {
            first
        } else {
            second
        },
    }
}

/// A literal name: `word` at `at` reads as `value`.
pub open spec fn literal_at(s: Seq<u8>, at: int, word: Seq<u8>, value: Model) -> Parsed {
    if starts_with(s, at, word) {
        Ok((value, at + word.len()))
    } else {
        Err(soft(ErrorKind::Syntax, at))
    }
}

/// A number: the literal at `at` is an `Int` where it has neither fraction
/// nor exponent and fits in 64 bits, else a `Float` that keeps the literal.
pub open spec fn number_at(s: Seq<u8>, at: int) -> Parsed {
    match number_span(s, at) {
        None => Err(soft(ErrorKind::Syntax, at)),
        Some(span) => if reads_as_int(s, at, span) {
            Ok((Model::Int(literal_value(s, at, span.end)), span.end))
        } else {
            Ok((Model::Float(s.subrange(at, span.end)), span.end))
        },
    }
}

/// A string literal: a quote, content up to the closing quote, and the
/// text that the content stands for. Behind the opening quote every failure
/// is final.
pub open spec fn string_at(s: Seq<u8>, at: int) -> Result<(Seq<u8>, int), ParseError> {
    if !(0 <= at < s.len() && s[at] == QUOTE) {
        Err(soft(ErrorKind::Syntax, at))
    } else {
        match scan_text(s, at + 1, true) {
            Err(e) => Err(e),
            Ok(close) => Ok((decoded(s, at + 1, close), close + 1)),
        }
    }
}

/// A string as a value.
pub open spec fn string_value_at(s: Seq<u8>, at: int) -> Parsed {
    match string_at(s, at) {
        Ok((text, next)) => Ok((Model::String(text), next)),
        Err(e) => Err(e),
    }
}

/// What the items of a list are: the values of an array, or the members of
/// an object.
#[derive(Clone, Copy, Debug, PartialEq, Eq, Structural)]
pub enum ItemKind {
    Value,
    Member,
}

/// One item of a list.
pub enum Item {
    Value(Model),
    Member(Seq<u8>, Model),
}

/// The value of an item.
pub open spec fn item_value(item: Item) -> Model {
    match item {
        Item::Value(v) => v,
        Item::Member(_, v) => v,
    }
}

/// The key of an item; a value has none.
pub open spec fn item_key(item: Item) -> Seq<u8> {
    match item {
        Item::Value(_) => Seq::empty(),
        Item::Member(k, _) => k,
    }
}

/// The values of the items, in order.
pub open spec fn values_of(items: Seq<Item>) -> Seq<Model> {
    Seq::new(items.len(), |i: int| item_value(items[i]))
}

/// The keys and values of the items, in order.
pub open spec fn pairs_of(items: Seq<Item>) -> Seq<(Seq<u8>, Model)> {
    Seq::new(items.len(), |i: int| (item_key(items[i]), item_value(items[i])))
}

/// What a list reads: its items and the place behind it, or a failure.
pub type ParsedList = Result<(Seq<Item>, int), ParseError>;

/// A value: the first production that reads one at `at`, tried in the order
/// `null`, `true`, `false`, number, string, array, object. A production
/// that fails for good ends the trial.
#[verifier::opaque]
pub open spec fn value_at(s: Seq<u8>, at: int) -> Parsed
    decreases s.len() - at, 2int,
{
    if at < 0 || at > s.len() {
        Err(soft(ErrorKind::Syntax, at))
    } else {
        or_else(
            literal_at(s, at, null_text(), Model::Null),
            or_else(
                literal_at(s, at, true_text(), Model::Bool(true)),
                or_else(
                    literal_at(s, at, false_text(), Model::Bool(false)),
                    or_else(
                        number_at(s, at),
                        or_else(string_value_at(s, at), or_else(array_at(s, at), object_at(s, at))),
                    ),
                ),
            ),
        )
    }
}

/// An element: a value with whitespace before and behind it.
pub open spec fn element_at(s: Seq<u8>, at: int) -> Parsed
    decreases s.len() - at, 3int,
{
    if at < 0 || at > s.len() {
        Err(soft(ErrorKind::Syntax, at))
    } else {
        let start = skip_spaces(s, at);
        if start < at || start > s.len() {
            Err(soft(ErrorKind::Syntax, at))
        } else {
            match value_at(s, start) {
                Ok((v, next)) => Ok((v, skip_spaces(s, next))),
                Err(e) => Err(e),
            }
        }
    }
}

/// One item of a list: an element, or a member, which is a key, a colon and
/// an element. Behind the key every failure is final.
pub open spec fn item_at(s: Seq<u8>, at: int, kind: ItemKind) -> Result<(Item, int), ParseError>
    decreases s.len() - at, 4int,
{
    if at < 0 || at > s.len() {
        Err(soft(ErrorKind::Syntax, at))
    } else {
        match kind {
            ItemKind::Value => match element_at(s, at) {
                Ok((v, next)) => Ok((Item::Value(v), next)),
                Err(e) => Err(e),
            },
            ItemKind::Member => match string_at(s, skip_spaces(s, at)) {
                Err(e) => Err(e),
                Ok((key, behind)) => {
                    let colon = skip_spaces(s, behind);
                    if !(at <= colon < s.len() && s[colon] == COLON) {
                        Err(hard(ErrorKind::Syntax, colon))
                    } else {
                        match element_at(s, colon + 1) {
                            Ok((v, next)) => Ok((Item::Member(key, v), next)),
                            Err(e) => Err(committed(e)),
                        }
                    }
                },
            },
        }
    }
}

/// A list: items with a comma between each two. Where no item stands at
/// the very start, the list is empty; behind a comma an item must follow.
/// (An item is never empty: the test `at < next` only shows that the
/// definition is well-founded.)
#[verifier::opaque]
pub open spec fn list_at(s: Seq<u8>, at: int, kind: ItemKind, first: bool) -> ParsedList
    decreases s.len() - at, 5int,
{
    if at < 0 || at > s.len() {
        Err(hard(ErrorKind::Syntax, at))
    } else {
        match item_at(s, at, kind) {
            Err(e) => if e.fatal {
                Err(e)
            } else if first {
                Ok((Seq::empty(), at))
            } else {
                Err(committed(e))
            },
            Ok((item, next)) => if !(at < next <= s.len()) {
                Err(hard(ErrorKind::Syntax, at))
            } else if next < s.len() && s[next] == COMMA {
                match list_at(s, next + 1, kind, false) {
                    Ok((rest, end)) => Ok((seq![item] + rest, end)),
                    Err(e) => Err(e),
                }
            } else {
                Ok((seq![item], next))
            },
        }
    }
}

/// A list between brackets: the opening bracket, whitespace, the list,
/// whitespace, the closing bracket. Behind the opening bracket every
/// failure is final.
pub open spec fn bracketed_at(s: Seq<u8>, at: int, kind: ItemKind, open: u8, close: u8) -> ParsedList
    decreases s.len() - at, 0int,
{
    if !(0 <= at < s.len() && s[at] == open) {
        Err(soft(ErrorKind::Syntax, at))
    } else {
        let start = skip_spaces(s, at + 1);
        if start <= at || start > s.len() {
            Err(hard(ErrorKind::Syntax, at))
        } else {
            match list_at(s, start, kind, true) {
                Err(e) => Err(committed(e)),
                Ok((items, behind)) => {
                    let end = skip_spaces(s, behind);
                    if 0 <= end < s.len() && s[end] == close {
                        Ok((items, end + 1))
                    } else {
                        Err(hard(ErrorKind::Syntax, end))
                    }
                },
            }
        }
    }
}

/// An array: a list of elements between `[` and `]`.
pub open spec fn array_at(s: Seq<u8>, at: int) -> Parsed
    decreases s.len() - at, 1int,
{
    match bracketed_at(s, at, ItemKind::Value, OPEN_BRACKET, CLOSE_BRACKET) {
        Ok((items, next)) => Ok((Model::Array(values_of(items)), next)),
        Err(e) => Err(e),
    }
}

/// An object: a list of members between `{` and `}`. Of two members with
/// one key the later one stays.
pub open spec fn object_at(s: Seq<u8>, at: int) -> Parsed
    decreases s.len() - at, 1int,
{
    match bracketed_at(s, at, ItemKind::Member, OPEN_BRACE, CLOSE_BRACE) {
        Ok((items, next)) => Ok((Model::Object(members_of(pairs_of(items))), next)),
        Err(e) => Err(e),
    }
}

/// A document: one element that takes the whole text.
pub open spec fn document(s: Seq<u8>) -> Result<Model, ParseError> {
    match element_at(s, 0) {
        Err(e) => Err(e),
        Ok((v, end)) => if end == s.len() {
            Ok(v)
        } else {
            Err(hard(ErrorKind::TrailingData, end))
        },
    }
}

} // verus!
