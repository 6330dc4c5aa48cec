//! The parser: one function for each production of the grammar, each with
//! the place in the input at which it reads.

use crate::codec::TextCodec;
use crate::error::{soft, ErrorKind, ParseError};
use crate::grammar::{
    array_at, bracketed_at, document, element_at, item_at, item_key, item_value, list_at,
    literal_at, number_at, object_at, pairs_of, skip_spaces, starts_with, string_at,
    string_value_at, value_at, values_of, Item, ItemKind, Parsed, ParsedList,
};
use crate::model::{lemma_with_member_well_formed, members_of, well_formed, Model};
use crate::number::{lemma_float_literal, lemma_number_span_bounds, read_int, scan_number};
use crate::render::{false_text, null_text, true_text};
use crate::repr::{FloatLiteral, Json, JsonObject, JsonValue};
use crate::text::{
    lemma_ascii_cut, substr, CLOSE_BRACE, CLOSE_BRACKET, COLON, COMMA, OPEN_BRACE, OPEN_BRACKET,
    QUOTE,
};
use crate::unescape::{lemma_content_window, lemma_scan_bounds, plain_run, scan, scan_text};
use std::borrow::Cow;
use vstd::prelude::*;
use vstd::string::*;
use vstd::utf8::*;

verus! {

/// What a production has read stands for what the grammar reads there, and
/// is well-formed.
pub open spec fn reads(r: Result<(Json<'_>, usize), ParseError>, expected: Parsed) -> bool {
    match r {
        Ok((value, next)) => expected == Ok::<(Model, int), ParseError>((value@, next as int))
            && value.wf(),
        Err(e) => expected == Err::<(Model, int), ParseError>(e),
    }
}

/// One item of a list, as the parser holds it.
pub enum ListItem<'a> {
    Value(Json<'a>),
    Member(Cow<'a, str>, Json<'a>),
}

impl<'a> ListItem<'a> {
    /// The item that this stands for.
    pub open spec fn view(&self) -> Item {
        match self {
            ListItem::Value(v) => Item::Value(v@),
            ListItem::Member(k, v) => Item::Member(encode_utf8(k@), v@),
        }
    }
}

/// The items of a list, gathered: the values of an array in order, or the
/// members of an object.
pub enum Collected<'a> {
    Values(Vec<Json<'a>>),
    Members(JsonObject<'a>),
}

/// `c` holds the items `items` of a list of kind `kind`, all well-formed.
pub open spec fn collects(c: Collected<'_>, kind: ItemKind, items: Seq<Item>) -> bool {
    match c {
        Collected::Values(values) => {
            &&& kind == ItemKind::Value
            &&& values@.len() == items.len()
            &&& forall|i: int|
                0 <= i < items.len() ==> (#[trigger] values@[i])@ == item_value(items[i])
                    && well_formed(values@[i]@)
        },
        Collected::Members(object) => {
            &&& kind == ItemKind::Member
            &&& object.members() == members_of(pairs_of(items))
            &&& object.wf()
            &&& forall|i: int|
                0 <= i < object.members().len() ==> well_formed(
                    (#[trigger] object.members()[i]).1,
                )
        },
    }
}

/// What a list has read stands for what the grammar reads there.
pub open spec fn reads_list(
    r: Result<(Collected<'_>, usize), ParseError>,
    kind: ItemKind,
    expected: ParsedList,
) -> bool {
    match r {
        Ok((c, next)) => expected is Ok && expected->Ok_0.1 == next && collects(
            c,
            kind,
            expected->Ok_0.0,
        ),
        Err(e) => expected == Err::<(Seq<Item>, int), ParseError>(e),
    }
}

/// The items `front` put before what the rest of a list reads.
pub open spec fn prepended(front: Seq<Item>, rest: ParsedList) -> ParsedList {
    match rest {
        Ok((items, end)) => Ok((front + items, end)),
        Err(e) => Err(e),
    }
}

/// Putting `front` and then `item` before a reading is putting `front`
/// with `item` at its end before it.
proof fn lemma_prepended_step(front: Seq<Item>, item: Item, rest: ParsedList)
    ensures
        prepended(front, prepended(seq![item], rest)) == prepended(front.push(item), rest),
{
    if let Ok((items, end)) = rest {
        assert(front + (seq![item] + items) =~= front.push(item) + items);
    }
}

/// Skips whitespace from byte `at` of `input`.
pub fn skip_whitespace(input: &str, at: usize) -> (next: usize)
    ensures
        next == skip_spaces(input.spec_bytes(), at as int),
        at <= next,
        at <= input.spec_bytes().len() ==> next <= input.spec_bytes().len(),
{
    let bytes = input.as_bytes();
    let n = bytes.len();
    let mut next = at;
    while next < n && (bytes[next] == 0x20 || bytes[next] == 0x09 || bytes[next] == 0x0A
        || bytes[next] == 0x0D)
        invariant
            n == bytes@.len(),
            bytes@ == input.spec_bytes(),
            at <= next,
            at <= n ==> next <= n,
            skip_spaces(bytes@, next as int) == skip_spaces(bytes@, at as int),
        decreases n - next,
    {
        next = next + 1;
    }
    next
}

/// Reads `null` at byte `at` of `input`.
pub fn parse_null<'a>(input: &'a str, at: usize) -> (r: Result<(Json<'a>, usize), ParseError>)
    ensures
        reads(r, literal_at(input.spec_bytes(), at as int, null_text(), Model::Null)),
        r matches Err(e) ==> !e.fatal,
        r matches Ok((_, next)) ==> at < next <= input.spec_bytes().len(),
{
    let bytes = input.as_bytes();
    let n = bytes.len();
    if at <= n && n - at >= 4 && bytes[at] == 0x6E && bytes[at + 1] == 0x75 && bytes[at + 2]
        == 0x6C && bytes[at + 3] == 0x6C {
        proof {
            assert(bytes@.subrange(at as int, at + 4) =~= null_text());
        }
        Ok((Json(None), at + 4))
    } else {
        proof {
            if starts_with(bytes@, at as int, null_text()) {
                let w = bytes@.subrange(at as int, at + 4);
                assert(w[0] == bytes@[at as int] && w[1] == bytes@[at + 1] && w[2] == bytes@[at
                    + 2] && w[3] == bytes@[at + 3]);
            }
        }
        Err(ParseError::new(ErrorKind::Syntax, at, false))
    }
}

/// Reads `true` at byte `at` of `input`.
pub fn parse_true<'a>(input: &'a str, at: usize) -> (r: Result<(Json<'a>, usize), ParseError>)
    ensures
        reads(r, literal_at(input.spec_bytes(), at as int, true_text(), Model::Bool(true))),
        r matches Err(e) ==> !e.fatal,
        r matches Ok((_, next)) ==> at < next <= input.spec_bytes().len(),
{
    let bytes = input.as_bytes();
    let n = bytes.len();
    if at <= n && n - at >= 4 && bytes[at] == 0x74 && bytes[at + 1] == 0x72 && bytes[at + 2]
        == 0x75 && bytes[at + 3] == 0x65 {
        proof {
            assert(bytes@.subrange(at as int, at + 4) =~= true_text());
        }
        Ok((Json(Some(JsonValue::Bool(true))), at + 4))
    } else {
        proof {
            if starts_with(bytes@, at as int, true_text()) {
                let w = bytes@.subrange(at as int, at + 4);
                assert(w[0] == bytes@[at as int] && w[1] == bytes@[at + 1] && w[2] == bytes@[at
                    + 2] && w[3] == bytes@[at + 3]);
            }
        }
        Err(ParseError::new(ErrorKind::Syntax, at, false))
    }
}

/// Reads `false` at byte `at` of `input`.
pub fn parse_false<'a>(input: &'a str, at: usize) -> (r: Result<(Json<'a>, usize), ParseError>)
    ensures
        reads(r, literal_at(input.spec_bytes(), at as int, false_text(), Model::Bool(false))),
        r matches Err(e) ==> !e.fatal,
        r matches Ok((_, next)) ==> at < next <= input.spec_bytes().len(),
{
    let bytes = input.as_bytes();
    let n = bytes.len();
    if at <= n && n - at >= 5 && bytes[at] == 0x66 && bytes[at + 1] == 0x61 && bytes[at + 2]
        == 0x6C && bytes[at + 3] == 0x73 && bytes[at + 4] == 0x65 {
        proof {
            assert(bytes@.subrange(at as int, at + 5) =~= false_text());
        }
        Ok((Json(Some(JsonValue::Bool(false))), at + 5))
    } else {
        proof {
            if starts_with(bytes@, at as int, false_text()) {
                let w = bytes@.subrange(at as int, at + 5);
                assert(w[0] == bytes@[at as int] && w[1] == bytes@[at + 1] && w[2] == bytes@[at
                    + 2] && w[3] == bytes@[at + 3] && w[4] == bytes@[at + 4]);
            }
        }
        Err(ParseError::new(ErrorKind::Syntax, at, false))
    }
}

/// Reads a number at byte `at` of `input`: an `Int` where the literal has
/// neither fraction nor exponent and fits in an `i64`, else a `Float`.
pub fn parse_number<'a>(input: &'a str, at: usize) -> (r: Result<(Json<'a>, usize), ParseError>)
    ensures
        reads(r, number_at(input.spec_bytes(), at as int)),
        r matches Err(e) ==> !e.fatal,
        r matches Ok((_, next)) ==> at < next <= input.spec_bytes().len(),
{
    broadcast use encode_utf8_valid_utf8;

    let ghost all = input.spec_bytes();
    match scan_number(input, at) {
        None => Err(ParseError::new(ErrorKind::Syntax, at, false)),
        Some((int_end, end)) => {
            proof {
                lemma_number_span_bounds(all, at as int);
            }
            let whole = if int_end == end {
                read_int(input, at, end)
            } else {
                None
            };
            match whole {
                Some(v) => Ok((Json(Some(JsonValue::Int(v))), end)),
                None => {
                    proof {
                        lemma_float_literal(all, at as int);
                        lemma_ascii_cut(all, at as int);
                        lemma_ascii_cut(all, end - 1);
                    }
                    let text = substr(input, at, end);
                    let lit = FloatLiteral::from_checked(Cow::Borrowed(text));
                    Ok((Json(Some(JsonValue::Float(lit))), end))
                },
            }
        },
    }
}

/// Reads a string literal at byte `at` of `input` and returns its content
/// as it stands between the quotes, escape sequences and all, with the
/// place behind the closing quote.
pub fn unquote<'a>(input: &'a str, at: usize) -> (r: Result<(&'a str, usize), ParseError>)
    ensures
        match r {
            Ok((raw, next)) => {
                &&& at < next <= input.spec_bytes().len()
                &&& scan_text(input.spec_bytes(), at + 1, true) == Ok::<int, ParseError>(next - 1)
                &&& string_at(input.spec_bytes(), at as int) is Ok
                &&& raw.spec_bytes() == input.spec_bytes().subrange(at + 1, next - 1)
            },
            Err(e) => string_at(input.spec_bytes(), at as int) == Err::<(Seq<u8>, int), ParseError>(
                e,
            ),
        },
{
    broadcast use encode_utf8_valid_utf8;

    let bytes = input.as_bytes();
    let n = bytes.len();
    let ghost all = bytes@;
    if at >= n || bytes[at] != QUOTE {
        return Err(ParseError::new(ErrorKind::Syntax, at, false));
    }
    match scan(input, at + 1, true) {
        Err(e) => Err(e),
        Ok(close) => {
            proof {
                lemma_scan_bounds(all, at + 1, true);
                lemma_ascii_cut(all, at as int);
                lemma_ascii_cut(all, close as int);
            }
            Ok((substr(input, at + 1, close), close + 1))
        },
    }
}

/// Reads a string literal at byte `at` of `input` and returns its text:
/// borrowed from the input where the literal holds no escape sequence.
pub fn parse_string_raw<'a>(codec: &TextCodec, input: &'a str, at: usize) -> (r: Result<
    (Cow<'a, str>, usize),
    ParseError,
>)
    ensures
        match r {
            Ok((text, next)) => {
                &&& at < next <= input.spec_bytes().len()
                &&& string_at(input.spec_bytes(), at as int) == Ok::<(Seq<u8>, int), ParseError>(
                    (encode_utf8(text@), next as int),
                )
                &&& text is Borrowed <==> plain_run(input.spec_bytes(), at + 1, next - 1, false)
            },
            Err(e) => string_at(input.spec_bytes(), at as int) == Err::<(Seq<u8>, int), ParseError>(
                e,
            ),
        },
{
    match unquote(input, at) {
        Err(e) => Err(e),
        Ok((raw, next)) => {
            proof {
                let all = input.spec_bytes();
                lemma_content_window(all, at + 1, at + 1, next - 1);
                assert(plain_run(raw.spec_bytes(), 0, raw.spec_bytes().len() as int, false)
                    <==> plain_run(all, at + 1, next - 1, false)) by {
                    let r = raw.spec_bytes();
                    if plain_run(all, at + 1, next - 1, false) {
                        assert forall|i: int| 0 <= i < r.len() implies (#[trigger] r[i])
                            != crate::text::BACKSLASH by {
                            assert(r[i] == all[at + 1 + i]);
                        }
                    }
                    if plain_run(r, 0, r.len() as int, false) {
                        assert forall|i: int| at + 1 <= i < next - 1 implies (#[trigger] all[i])
                            != crate::text::BACKSLASH by {
                            assert(all[i] == r[i - (at + 1)]);
                        }
                    }
                }
            }
            let text = codec.unescape_checked(raw);
            Ok((text, next))
        },
    }
}

/// Reads a string at byte `at` of `input`, as a value.
pub fn parse_string<'a>(codec: &TextCodec, input: &'a str, at: usize) -> (r: Result<
    (Json<'a>, usize),
    ParseError,
>)
    ensures
        reads(r, string_value_at(input.spec_bytes(), at as int)),
        r matches Ok((_, next)) ==> at < next <= input.spec_bytes().len(),
{
    match parse_string_raw(codec, input, at) {
        Err(e) => Err(e),
        Ok((text, next)) => Ok((Json(Some(JsonValue::String(text))), next)),
    }
}

/// Reads a value at byte `at` of `input`: the first production that reads
/// one there, in the order `null`, `true`, `false`, number, string, array,
/// object.
pub fn parse_json<'a>(codec: &TextCodec, input: &'a str, at: usize) -> (r: Result<
    (Json<'a>, usize),
    ParseError,
>)
    ensures
        reads(r, value_at(input.spec_bytes(), at as int)),
        r matches Ok((_, next)) ==> at < next <= input.spec_bytes().len(),
    decreases input.spec_bytes().len() - at, 2int,
{
    reveal(value_at);
    let n = input.as_bytes().len();
    if at > n {
        return Err(ParseError::new(ErrorKind::Syntax, at, false));
    }
    match parse_null(input, at) {
        Ok(found) => {
            return Ok(found);
        },
        Err(_) => {},
    }
    match parse_true(input, at) {
        Ok(found) => {
            return Ok(found);
        },
        Err(_) => {},
    }
    match parse_false(input, at) {
        Ok(found) => {
            return Ok(found);
        },
        Err(_) => {},
    }
    match parse_number(input, at) {
        Ok(found) => {
            return Ok(found);
        },
        Err(_) => {},
    }
    match parse_string(codec, input, at) {
        Ok(found) => {
            return Ok(found);
        },
        Err(e) => {
            if e.fatal {
                return Err(e);
            }
        },
    }
    match parse_array(codec, input, at) {
        Ok(found) => {
            return Ok(found);
        },
        Err(e) => {
            if e.fatal {
                return Err(e);
            }
        },
    }
    parse_object(codec, input, at)
}

/// Reads an element at byte `at` of `input`: a value with whitespace before
/// and behind it.
pub fn parse_json_element<'a>(codec: &TextCodec, input: &'a str, at: usize) -> (r: Result<
    (Json<'a>, usize),
    ParseError,
>)
    ensures
        reads(r, element_at(input.spec_bytes(), at as int)),
        r matches Ok((_, next)) ==> at < next <= input.spec_bytes().len(),
    decreases input.spec_bytes().len() - at, 3int,
{
    reveal(value_at);
    let n = input.as_bytes().len();
    if at > n {
        return Err(ParseError::new(ErrorKind::Syntax, at, false));
    }
    let start = skip_whitespace(input, at);
    match parse_json(codec, input, start) {
        Err(e) => Err(e),
        Ok((value, next)) => Ok((value, skip_whitespace(input, next))),
    }
}

/// Reads one item of a list at byte `at` of `input`.
pub fn parse_item<'a>(codec: &TextCodec, input: &'a str, at: usize, kind: ItemKind) -> (r: Result<
    (ListItem<'a>, usize),
    ParseError,
>)
    ensures
        match r {
            Ok((item, next)) => {
                &&& item_at(input.spec_bytes(), at as int, kind) == Ok::<(Item, int), ParseError>(
                    (item@, next as int),
                )
                &&& at < next <= input.spec_bytes().len()
                &&& well_formed(item_value(item@))
                &&& kind == ItemKind::Value <==> item is Value
            },
            Err(e) => item_at(input.spec_bytes(), at as int, kind) == Err::<
                (Item, int),
                ParseError,
            >(e),
        },
    decreases input.spec_bytes().len() - at, 4int,
{
    let bytes = input.as_bytes();
    let n = bytes.len();
    if at > n {
        return Err(ParseError::new(ErrorKind::Syntax, at, false));
    }
    match kind {
        ItemKind::Value => match parse_json_element(codec, input, at) {
            Ok((value, next)) => Ok((ListItem::Value(value), next)),
            Err(e) => Err(e),
        },
        ItemKind::Member => {
            let start = skip_whitespace(input, at);
            match parse_string_raw(codec, input, start) {
                Err(e) => Err(e),
                Ok((key, behind)) => {
                    let colon = skip_whitespace(input, behind);
                    if colon >= n || bytes[colon] != COLON {
                        return Err(ParseError::new(ErrorKind::Syntax, colon, true));
                    }
                    match parse_json_element(codec, input, colon + 1) {
                        Ok((value, next)) => Ok((ListItem::Member(key, value), next)),
                        Err(e) => Err(e.commit()),
                    }
                },
            }
        },
    }
}

/// Reads a list at byte `at` of `input`: items of the given kind with a
/// comma between each two. One item is read, then a comma is looked for:
/// with a comma the list goes on, without one it is complete. The list is
/// empty where no item stands at its start.
pub fn delimited_list<'a>(codec: &TextCodec, input: &'a str, at: usize, kind: ItemKind) -> (r:
    Result<(Collected<'a>, usize), ParseError>)
    ensures
        reads_list(r, kind, list_at(input.spec_bytes(), at as int, kind, true)),
        r matches Ok((_, next)) ==> at <= next <= input.spec_bytes().len(),
    decreases input.spec_bytes().len() - at, 5int,
{
    reveal(list_at);
    let bytes = input.as_bytes();
    let n = bytes.len();
    let ghost all = bytes@;
    if at > n {
        return Err(ParseError::new(ErrorKind::Syntax, at, true));
    }
    let mut values: Vec<Json<'a>> = Vec::new();
    let mut members = JsonObject::new();
    let mut cur = at;
    let mut first = true;
    let ghost mut items: Seq<Item> = Seq::empty();
    proof {
        let whole = list_at(all, at as int, kind, true);
        if let Ok((found, end)) = whole {
            assert(Seq::<Item>::empty() + found =~= found);
        }
        assert(pairs_of(items) =~= Seq::<(Seq<u8>, Model)>::empty());
    }
    loop
        invariant
            all == bytes@,
            all == input.spec_bytes(),
            n == all.len(),
            at <= cur <= n,
            first ==> cur == at && items.len() == 0,
            list_at(all, at as int, kind, true) == prepended(
                items,
                list_at(all, cur as int, kind, first),
            ),
            kind == ItemKind::Value ==> collects(Collected::Values(values), kind, items),
            kind == ItemKind::Member ==> collects(Collected::Members(members), kind, items),
        decreases n - cur,
    {
        reveal(list_at);
        match parse_item(codec, input, cur, kind) {
            Err(e) => {
                if e.fatal {
                    return Err(e);
                }
                if first {
                    proof {
                        assert(items + Seq::<Item>::empty() =~= items);
                    }
                    match kind {
                        ItemKind::Value => {
                            return Ok((Collected::Values(values), cur));
                        },
                        ItemKind::Member => {
                            return Ok((Collected::Members(members), cur));
                        },
                    }
                }
                return Err(e.commit());
            },
            Ok((item, next)) => {
                let ghost it = item@;
                let ghost before = items;
                proof {
                    lemma_prepended_step(before, it, list_at(all, next + 1, kind, false));
                    assert(before + seq![it] =~= before.push(it));
                    items = before.push(it);
                }
                match item {
                    ListItem::Value(value) => {
                        values.push(value);
                    },
                    ListItem::Member(key, value) => {
                        proof {
                            lemma_with_member_well_formed(
                                members.members(),
                                encode_utf8(key@),
                                value@,
                            );
                            assert(pairs_of(items).drop_last() =~= pairs_of(before));
                            assert(pairs_of(items).last() == (item_key(it), item_value(it)));
                        }
                        members.insert(key, value);
                    },
                }
                if next < n && bytes[next] == COMMA {
                    cur = next + 1;
                    first = false;
                } else {
                    match kind {
                        ItemKind::Value => {
                            return Ok((Collected::Values(values), next));
                        },
                        ItemKind::Member => {
                            return Ok((Collected::Members(members), next));
                        },
                    }
                }
            },
        }
    }
}

/// Reads a list between brackets at byte `at` of `input`.
pub fn parse_bracketed<'a>(
    codec: &TextCodec,
    input: &'a str,
    at: usize,
    kind: ItemKind,
    open: u8,
    close: u8,
) -> (r: Result<(Collected<'a>, usize), ParseError>)
    ensures
        reads_list(r, kind, bracketed_at(input.spec_bytes(), at as int, kind, open, close)),
        r matches Ok((_, next)) ==> at < next <= input.spec_bytes().len(),
        r matches Err(e) ==> (e.fatal || e == soft(ErrorKind::Syntax, at as int)),
    decreases input.spec_bytes().len() - at, 0int,
{
    reveal(list_at);
    let bytes = input.as_bytes();
    let n = bytes.len();
    if at >= n || bytes[at] != open {
        return Err(ParseError::new(ErrorKind::Syntax, at, false));
    }
    let start = skip_whitespace(input, at + 1);
    match delimited_list(codec, input, start, kind) {
        Err(e) => Err(e.commit()),
        Ok((found, behind)) => {
            let end = skip_whitespace(input, behind);
            if end < n && bytes[end] == close {
                Ok((found, end + 1))
            } else {
                Err(ParseError::new(ErrorKind::Syntax, end, true))
            }
        },
    }
}

/// Reads an array at byte `at` of `input`.
pub fn parse_array<'a>(codec: &TextCodec, input: &'a str, at: usize) -> (r: Result<
    (Json<'a>, usize),
    ParseError,
>)
    ensures
        reads(r, array_at(input.spec_bytes(), at as int)),
        r matches Ok((_, next)) ==> at < next <= input.spec_bytes().len(),
    decreases input.spec_bytes().len() - at, 1int,
{
    match parse_bracketed(codec, input, at, ItemKind::Value, OPEN_BRACKET, CLOSE_BRACKET) {
        Err(e) => Err(e),
        Ok((found, next)) => match found {
            Collected::Values(values) => {
                let value = Json(Some(JsonValue::Array(values)));
                proof {
                    let items = bracketed_at(
                        input.spec_bytes(),
                        at as int,
                        ItemKind::Value,
                        OPEN_BRACKET,
                        CLOSE_BRACKET,
                    )->Ok_0.0;
                    assert(value@->Array_0 =~= values_of(items));
                }
                Ok((value, next))
            },
            Collected::Members(_) => {
                proof {
                    assert(false);
                }
                Err(ParseError::new(ErrorKind::Syntax, at, true))
            },
        },
    }
}

/// Reads an object at byte `at` of `input`. Of two members with one key
/// the later one stays.
pub fn parse_object<'a>(codec: &TextCodec, input: &'a str, at: usize) -> (r: Result<
    (Json<'a>, usize),
    ParseError,
>)
    ensures
        reads(r, object_at(input.spec_bytes(), at as int)),
        r matches Ok((_, next)) ==> at < next <= input.spec_bytes().len(),
        r matches Err(e) ==> (e.fatal || e == soft(ErrorKind::Syntax, at as int)),
    decreases input.spec_bytes().len() - at, 1int,
{
    match parse_bracketed(codec, input, at, ItemKind::Member, OPEN_BRACE, CLOSE_BRACE) {
        Err(e) => Err(e),
        Ok((found, next)) => match found {
            Collected::Members(object) => Ok((Json(Some(JsonValue::Object(object))), next)),
            Collected::Values(_) => {
                proof {
                    assert(false);
                }
                Err(ParseError::new(ErrorKind::Syntax, at, true))
            },
        },
    }
}

/// Parses `text` as one JSON document: a value, with whitespace before and
/// behind it and nothing else.
pub fn parse<'a>(text: &'a str) -> (r: Result<Json<'a>, ParseError>)
    ensures
        match r {
            Ok(value) => document(text.spec_bytes()) == Ok::<Model, ParseError>(value@)
                && value.wf(),
            Err(e) => document(text.spec_bytes()) == Err::<Model, ParseError>(e),
        },
{
    let codec = TextCodec::new();
    let n = text.as_bytes().len();
    match parse_json_element(&codec, text, 0) {
        Err(e) => Err(e),
        Ok((value, end)) => {
            if end == n {
                Ok(value)
            } else {
                Err(ParseError::new(ErrorKind::TrailingData, end, true))
            }
        },
    }
}

} // verus!
