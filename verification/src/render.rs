//! The two textual forms of a JSON value: compact and pretty.

use crate::codec::TextCodec;
use crate::escape::escaped;
use crate::model::Model;
use crate::number::int_text;
use crate::pad::indented;
use crate::repr::Json;
use crate::text::{
    CLOSE_BRACE, CLOSE_BRACKET, COLON, COMMA, NEWLINE, OPEN_BRACE, OPEN_BRACKET, QUOTE, SPACE,
};
use vstd::prelude::*;
use vstd::string::*;
use vstd::utf8::*;

verus! {

/// `null`
pub open spec fn null_text() -> Seq<u8> {
    seq![0x6Eu8, 0x75u8, 0x6Cu8, 0x6Cu8]
}

/// `true`
pub open spec fn true_text() -> Seq<u8> {
    seq![0x74u8, 0x72u8, 0x75u8, 0x65u8]
}

/// `false`
pub open spec fn false_text() -> Seq<u8> {
    seq![0x66u8, 0x61u8, 0x6Cu8, 0x73u8, 0x65u8]
}

/// A string literal: the text, escaped, between quotes.
pub open spec fn quoted(text: Seq<u8>) -> Seq<u8> {
    seq![QUOTE] + escaped(text) + seq![QUOTE]
}

/// The text of a value that holds no other value; both forms write it the
/// same way. A `Float` is written as its literal.
pub open spec fn scalar_text(v: Model) -> Seq<u8> {
    match v {
        Model::Null => null_text(),
        Model::Bool(b) => if b {
            true_text()
        } else {
            false_text()
        },
        Model::Int(i) => int_text(i),
        Model::Float(text) => text,
        Model::String(text) => quoted(text),
        _ => Seq::<u8>::empty(),
    }
}

/// A member of an object: its key as a string literal, `: `, its value.
pub open spec fn member_text(key: Seq<u8>, value_text: Seq<u8>) -> Seq<u8> {
    quoted(key) + seq![COLON, SPACE] + value_text
}

/// What separates the items of a compact list: `, `.
pub open spec fn compact_separator() -> Seq<u8> {
    seq![COMMA, SPACE]
}

/// What separates the items of a pretty list: `,` and a line break.
pub open spec fn pretty_separator() -> Seq<u8> {
    seq![COMMA, NEWLINE]
}

/// The compact form: `[e1, e2]` for an array, `{"k1": v1, "k2": v2}` for an
/// object, its members in the order of their keys.
pub open spec fn compact_text(v: Model) -> Seq<u8>
    decreases v, 0int,
{
    match v {
        Model::Array(items) => seq![OPEN_BRACKET] + compact_items(items, items.len() as int)
            + seq![CLOSE_BRACKET],
        Model::Object(members) => seq![OPEN_BRACE] + compact_members(
            members,
            members.len() as int,
        ) + seq![CLOSE_BRACE],
        _ => scalar_text(v),
    }
}

/// The first `count` items of a compact array.
pub open spec fn compact_items(items: Seq<Model>, count: int) -> Seq<u8>
    decreases items, count,
{
    if count <= 0 || count > items.len() {
        Seq::<u8>::empty()
    } else if count == 1 {
        compact_text(items[0])
    } else {
        compact_items(items, count - 1) + compact_separator() + compact_text(items[count - 1])
    }
}

/// The first `count` members of a compact object.
pub open spec fn compact_members(members: Seq<(Seq<u8>, Model)>, count: int) -> Seq<u8>
    decreases members, count,
{
    if count <= 0 || count > members.len() {
        Seq::<u8>::empty()
    } else if count == 1 {
        member_text(members[0].0, compact_text(members[0].1))
    } else {
        compact_members(members, count - 1) + compact_separator() + member_text(
            members[count - 1].0,
            compact_text(members[count - 1].1),
        )
    }
}

/// The pretty form: each item of an array or an object on a line of its
/// own, four spaces deeper than the brackets around it, and the closing
/// bracket on a line of its own.
pub open spec fn pretty_text(v: Model) -> Seq<u8>
    decreases v, 0int,
{
    match v {
        Model::Array(items) => seq![OPEN_BRACKET, NEWLINE] + indented(
            pretty_items(items, items.len() as int),
            true,
        ) + seq![NEWLINE, CLOSE_BRACKET],
        Model::Object(members) => seq![OPEN_BRACE, NEWLINE] + indented(
            pretty_members(members, members.len() as int),
            true,
        ) + seq![NEWLINE, CLOSE_BRACE],
        _ => scalar_text(v),
    }
}

/// The first `count` items of a pretty array, before they are indented.
pub open spec fn pretty_items(items: Seq<Model>, count: int) -> Seq<u8>
    decreases items, count,
{
    if count <= 0 || count > items.len() {
        Seq::<u8>::empty()
    } else if count == 1 {
        pretty_text(items[0])
    } else {
        pretty_items(items, count - 1) + pretty_separator() + pretty_text(items[count - 1])
    }
}

/// The first `count` members of a pretty object, before they are indented.
pub open spec fn pretty_members(members: Seq<(Seq<u8>, Model)>, count: int) -> Seq<u8>
    decreases members, count,
{
    if count <= 0 || count > members.len() {
        Seq::<u8>::empty()
    } else if count == 1 {
        member_text(members[0].0, pretty_text(members[0].1))
    } else {
        pretty_members(members, count - 1) + pretty_separator() + member_text(
            members[count - 1].0,
            pretty_text(members[count - 1].1),
        )
    }
}

/// The compact form of `value`.
pub fn render_compact(value: &Json<'_>) -> (out: String)
    ensures
        encode_utf8(out@) == compact_text(value@),
{
    let codec = TextCodec::new();
    let mut out = String::new();
    proof {
        assert(encode_utf8(out@) =~= Seq::<u8>::empty());
        assert(Seq::<u8>::empty() + compact_text(value@) =~= compact_text(value@));
    }
    value.write_compact(&codec, &mut out);
    out
}

/// The pretty form of `value`.
pub fn render_pretty(value: &Json<'_>) -> (out: String)
    ensures
        encode_utf8(out@) == pretty_text(value@),
{
    let codec = TextCodec::new();
    value.pretty_string(&codec)
}

} // verus!
