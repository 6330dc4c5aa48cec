//! The round trip: what rendering writes, parsing reads back.

use crate::error::{soft, ErrorKind, ParseError};
use crate::escape::{escaped};
use crate::grammar::{
    bracketed_at, document, element_at, is_space, item_at, list_at, literal_at, pairs_of,
    skip_spaces, starts_with, string_at, value_at, values_of, Item, ItemKind,
};
use crate::laws::lemma_escaped_read_back;
use crate::model::{lemma_members_of_risen, members_of, well_formed, Model};
use crate::number::{
    continues_number, digits_end, digits_value, int_part_end, int_text, is_digit,
    lemma_digits_value_window, lemma_number_span_bounds, lemma_number_window, literal_value,
    nat_text, number_span, same_window, NumberSpan, MINUS, ZERO,
};
use crate::render::{false_text, member_text, null_text, quoted, scalar_text, true_text};
use crate::text::{
    BACKSLASH, CLOSE_BRACE, CLOSE_BRACKET, COLON, COMMA, NEWLINE, OPEN_BRACE, OPEN_BRACKET, QUOTE,
    SPACE,
};
use crate::unescape::{decoded, scan_text};
use vstd::prelude::*;

verus! {

/// A text that stands in `s` at `at` as a concatenation stands there part
/// by part.
pub proof fn lemma_starts_with_parts(s: Seq<u8>, at: int, a: Seq<u8>, b: Seq<u8>)
    requires
        starts_with(s, at, a + b),
    ensures
        starts_with(s, at, a),
        starts_with(s, at + a.len(), b),
{
    let whole = s.subrange(at, at + (a + b).len());
    assert(s.subrange(at, at + a.len()) =~= whole.subrange(0, a.len() as int));
    assert(whole.subrange(0, a.len() as int) =~= a);
    assert(s.subrange(at + a.len(), at + a.len() + b.len()) =~= whole.subrange(
        a.len() as int,
        (a + b).len() as int,
    ));
    assert(whole.subrange(a.len() as int, (a + b).len() as int) =~= b);
}

/// The byte of a text that stands in `s`.
pub proof fn lemma_starts_with_byte(s: Seq<u8>, at: int, t: Seq<u8>, i: int)
    requires
        starts_with(s, at, t),
        0 <= i < t.len(),
    ensures
        s[at + i] == t[i],
{
    assert(s.subrange(at, at + t.len())[i] == s[at + i]);
}

/// Whitespace from `at` up to `to`, and none at `to`: skipping from `at`
/// leads to `to`.
pub proof fn lemma_skip_run(s: Seq<u8>, at: int, to: int)
    requires
        0 <= at <= to <= s.len(),
        forall|i: int| at <= i < to ==> is_space(#[trigger] s[i]),
        to == s.len() || !is_space(s[to]),
    ensures
        skip_spaces(s, at) == to,
    decreases to - at,
{
    if at < to {
        assert(is_space(s[at]));
        lemma_skip_run(s, at + 1, to);
    }
}

/// The decimal text of a natural number: digits, of which the first is `0`
/// only for zero, and which write the number.
pub proof fn lemma_nat_text(n: nat)
    ensures
        nat_text(n).len() >= 1,
        forall|i: int| 0 <= i < nat_text(n).len() ==> is_digit(#[trigger] nat_text(n)[i]),
        n >= 1 ==> nat_text(n)[0] != ZERO,
        n == 0 ==> nat_text(n) == seq![ZERO],
        digits_value(nat_text(n), 0, nat_text(n).len() as int) == n,
    decreases n,
{
    let t = nat_text(n);
    if n < 10 {
        assert(t =~= seq![(0x30 + n) as u8]);
        assert(digits_value(t, 0, 0) == 0);
        assert(digits_value(t, 0, 1) == digits_value(t, 0, 0) * 10 + (t[0] - 0x30));
    } else {
        let front = nat_text(n / 10);
        lemma_nat_text(n / 10);
        let len = t.len() as int;
        assert(t[len - 1] == (0x30 + n % 10) as u8);
        assert forall|i: int| 0 <= i < t.len() implies is_digit(#[trigger] t[i]) by {
            if i < len - 1 {
                assert(t[i] == front[i]);
            }
        }
        assert(t[0] == front[0]);
        assert(same_window(front, 0, t, 0, len - 1)) by {
            assert forall|i: int| 0 <= i < 0 + (len - 1) implies #[trigger] front[i] == t[i - 0 + 0] by {
                assert(t[i] == front[i]);
            }
        }
        lemma_digits_value_window(front, 0, t, 0, len - 1, 0, len - 1);
        assert(digits_value(t, 0, len) == digits_value(t, 0, len - 1) * 10 + (t[len - 1] - 0x30));
    }
}

/// Where every byte from `from` on is a digit, the run of digits ends with
/// the text.
pub proof fn lemma_digits_to_end(s: Seq<u8>, from: int)
    requires
        0 <= from <= s.len(),
        forall|i: int| from <= i < s.len() ==> is_digit(#[trigger] s[i]),
    ensures
        digits_end(s, from) == s.len(),
    decreases s.len() - from,
{
    if from < s.len() {
        assert(is_digit(s[from]));
        lemma_digits_to_end(s, from + 1);
    }
}

/// The decimal text of an integer is a number literal without fraction and
/// exponent that writes the integer.
pub proof fn lemma_int_text(v: int)
    ensures
        int_text(v).len() >= 1,
        number_span(int_text(v), 0) == Some(
            NumberSpan { int_end: int_text(v).len() as int, end: int_text(v).len() as int },
        ),
        literal_value(int_text(v), 0, int_text(v).len() as int) == v,
        int_text(v)[0] == MINUS || is_digit(int_text(v)[0]),
{
    let t = int_text(v);
    let len = t.len() as int;
    if v < 0 {
        let n = (-v) as nat;
        let digits = nat_text(n);
        lemma_nat_text(n);
        assert(t[0] == MINUS);
        assert forall|i: int| 1 <= i < t.len() implies is_digit(#[trigger] t[i]) by {
            assert(t[i] == digits[i - 1]);
        }
        assert(t[1] == digits[0]);
        lemma_digits_to_end(t, 1);
        assert(same_window(digits, 0, t, 1, len - 1)) by {
            assert forall|i: int| 0 <= i < 0 + (len - 1) implies #[trigger] digits[i] == t[i - 0 + 1] by {
                assert(t[i + 1] == digits[i]);
            }
        }
        lemma_digits_value_window(digits, 0, t, 1, len - 1, 0, len - 1);
        assert(int_part_end(t, 1) == Some(len));
    } else {
        lemma_nat_text(v as nat);
        lemma_digits_to_end(t, 0);
        assert(t[0] != MINUS);
        assert(int_part_end(t, 0) == Some(len));
    }
}

/// How a text is laid out.
pub enum Layout {
    Compact,
    Pretty,
}

/// `n` spaces.
pub open spec fn spaces(n: nat) -> Seq<u8> {
    Seq::new(n, |i: int| SPACE)
}

/// A line break and the indentation of a line at the given depth.
pub open spec fn line_gap(depth: nat) -> Seq<u8> {
    seq![NEWLINE] + spaces(4 * depth)
}

/// What stands behind the opening bracket of a list of `count` items.
pub open spec fn open_gap(layout: Layout, depth: nat, count: int) -> Seq<u8> {
    match layout {
        Layout::Compact => Seq::empty(),
        Layout::Pretty => if count == 0 {
            line_gap(depth)
        } else {
            line_gap(depth + 1)
        },
    }
}

/// What stands behind the comma between two items.
pub open spec fn item_gap(layout: Layout, depth: nat) -> Seq<u8> {
    match layout {
        Layout::Compact => seq![SPACE],
        Layout::Pretty => line_gap(depth + 1),
    }
}

/// What stands before the closing bracket.
pub open spec fn close_gap(layout: Layout, depth: nat) -> Seq<u8> {
    match layout {
        Layout::Compact => Seq::empty(),
        Layout::Pretty => line_gap(depth),
    }
}

/// The text of a value at a depth of nesting, in either layout: in the
/// pretty one every line of a list is indented by four spaces for each
/// list around it.
pub open spec fn layout_text(v: Model, layout: Layout, depth: nat) -> Seq<u8>
    decreases v, 0int,
{
    match v {
        Model::Array(items) => seq![OPEN_BRACKET] + open_gap(layout, depth, items.len() as int)
            + layout_items(items, items.len() as int, layout, depth) + close_gap(layout, depth)
            + seq![CLOSE_BRACKET],
        Model::Object(members) => seq![OPEN_BRACE] + open_gap(
            layout,
            depth,
            members.len() as int,
        ) + layout_members(members, members.len() as int, layout, depth) + close_gap(
            layout,
            depth,
        ) + seq![CLOSE_BRACE],
        _ => scalar_text(v),
    }
}

/// The first `count` items of an array at `depth`, laid out.
pub open spec fn layout_items(items: Seq<Model>, count: int, layout: Layout, depth: nat) -> Seq<
    u8,
>
    decreases items, count,
{
    if count <= 0 || count > items.len() {
        Seq::<u8>::empty()
    } else if count == 1 {
        layout_text(items[0], layout, depth + 1)
    } else {
        layout_items(items, count - 1, layout, depth) + seq![COMMA] + item_gap(layout, depth)
            + layout_text(items[count - 1], layout, depth + 1)
    }
}

/// The first `count` members of an object at `depth`, laid out.
pub open spec fn layout_members(
    members: Seq<(Seq<u8>, Model)>,
    count: int,
    layout: Layout,
    depth: nat,
) -> Seq<u8>
    decreases members, count,
{
    if count <= 0 || count > members.len() {
        Seq::<u8>::empty()
    } else if count == 1 {
        member_text(members[0].0, layout_text(members[0].1, layout, depth + 1))
    } else {
        layout_members(members, count - 1, layout, depth) + seq![COMMA] + item_gap(layout, depth)
            + member_text(
            members[count - 1].0,
            layout_text(members[count - 1].1, layout, depth + 1),
        )
    }
}

/// A byte with which the text of a value can begin.
pub open spec fn opens_value(b: u8) -> bool {
    b == 0x6E || b == 0x74 || b == 0x66 || b == MINUS || is_digit(b) || b == QUOTE || b
        == OPEN_BRACKET || b == OPEN_BRACE
}

/// The text of a well-formed value is not empty and begins with a byte that
/// opens a value.
pub proof fn lemma_layout_first(v: Model, layout: Layout, depth: nat)
    requires
        well_formed(v),
    ensures
        layout_text(v, layout, depth).len() >= 1,
        opens_value(layout_text(v, layout, depth)[0]),
{
    match v {
        Model::Int(i) => {
            lemma_int_text(i);
        },
        Model::Float(text) => {
            lemma_number_span_bounds(text, 0);
        },
        _ => {},
    }
}

/// A name does not stand where its first byte does not.
proof fn lemma_not_literal(s: Seq<u8>, at: int, word: Seq<u8>, value: Model)
    requires
        word.len() >= 1,
        0 <= at < s.len(),
        s[at] != word[0],
    ensures
        literal_at(s, at, word, value) == Err::<(Model, int), ParseError>(
            soft(ErrorKind::Syntax, at),
        ),
{
    if starts_with(s, at, word) {
        lemma_starts_with_byte(s, at, word, 0);
    }
}

/// At a byte that opens no value, no value is read, and the failure is not
/// final.
pub proof fn lemma_no_value(s: Seq<u8>, at: int)
    requires
        0 <= at <= s.len(),
        at < s.len() ==> !opens_value(s[at]),
    ensures
        value_at(s, at) == Err::<(Model, int), ParseError>(soft(ErrorKind::Syntax, at)),
        string_at(s, at) == Err::<(Seq<u8>, int), ParseError>(soft(ErrorKind::Syntax, at)),
{
    reveal(value_at);
    if at < s.len() {
        lemma_not_literal(s, at, null_text(), Model::Null);
        lemma_not_literal(s, at, true_text(), Model::Bool(true));
        lemma_not_literal(s, at, false_text(), Model::Bool(false));
    }
}

/// A string literal that stands in a text is read back as its text.
pub proof fn lemma_quoted_read_back(s: Seq<u8>, at: int, x: Seq<u8>)
    requires
        starts_with(s, at, quoted(x)),
    ensures
        string_at(s, at) == Ok::<(Seq<u8>, int), ParseError>((x, at + quoted(x).len())),
{
    let m = escaped(x).len() as int;
    lemma_starts_with_parts(s, at, seq![QUOTE] + escaped(x), seq![QUOTE]);
    lemma_starts_with_parts(s, at, seq![QUOTE], escaped(x));
    lemma_starts_with_byte(s, at, seq![QUOTE], 0);
    lemma_starts_with_byte(s, at + 1 + m, seq![QUOTE], 0);
    lemma_escaped_read_back(s, at + 1, x, at + 1 + m, true);
    assert(decoded(s, at + 1 + m, at + 1 + m) =~= Seq::<u8>::empty());
    assert(x + Seq::<u8>::empty() =~= x);
}

/// The text of a well-formed value that holds no other value is read back
/// as the value, if what follows does not continue a number.
pub proof fn lemma_scalar_read_back(v: Model, s: Seq<u8>, at: int)
    requires
        well_formed(v),
        !(v is Array),
        !(v is Object),
        starts_with(s, at, scalar_text(v)),
        at + scalar_text(v).len() == s.len() || !continues_number(s[at + scalar_text(v).len()]),
    ensures
        value_at(s, at) == Ok::<(Model, int), ParseError>((v, at + scalar_text(v).len())),
{
    reveal(value_at);
    let t = scalar_text(v);
    let len = t.len() as int;
    match v {
        Model::Null => {},
        Model::Bool(b) => {
            lemma_starts_with_byte(s, at, t, 0);
            lemma_not_literal(s, at, null_text(), Model::Null);
            if !b {
                lemma_not_literal(s, at, true_text(), Model::Bool(true));
            }
        },
        Model::Int(i) => {
            lemma_int_text(i);
            lemma_starts_with_byte(s, at, t, 0);
            lemma_not_literal(s, at, null_text(), Model::Null);
            lemma_not_literal(s, at, true_text(), Model::Bool(true));
            lemma_not_literal(s, at, false_text(), Model::Bool(false));
            lemma_window(s, at, t);
            lemma_number_window(t, 0, s, at, len);
        },
        Model::Float(text) => {
            lemma_number_span_bounds(text, 0);
            lemma_starts_with_byte(s, at, t, 0);
            lemma_not_literal(s, at, null_text(), Model::Null);
            lemma_not_literal(s, at, true_text(), Model::Bool(true));
            lemma_not_literal(s, at, false_text(), Model::Bool(false));
            lemma_window(s, at, t);
            lemma_number_window(t, 0, s, at, len);
        },
        Model::String(x) => {
            lemma_starts_with_parts(s, at, seq![QUOTE] + escaped(x), seq![QUOTE]);
            lemma_starts_with_parts(s, at, seq![QUOTE], escaped(x));
            lemma_starts_with_byte(s, at, seq![QUOTE], 0);
            lemma_not_literal(s, at, null_text(), Model::Null);
            lemma_not_literal(s, at, true_text(), Model::Bool(true));
            lemma_not_literal(s, at, false_text(), Model::Bool(false));
            lemma_quoted_read_back(s, at, x);
        },
        _ => {},
    }
}

/// A text that stands in `s` shares its window with `s`.
pub proof fn lemma_window(s: Seq<u8>, at: int, t: Seq<u8>)
    requires
        starts_with(s, at, t),
    ensures
        same_window(t, 0, s, at, t.len() as int),
{
    assert forall|i: int| 0 <= i < 0 + t.len() implies #[trigger] t[i] == s[i - 0 + at] by {
        lemma_starts_with_byte(s, at, t, i);
    }
}

/// Only whitespace.
pub open spec fn all_space(w: Seq<u8>) -> bool {
    forall|i: int| 0 <= i < w.len() ==> is_space(#[trigger] w[i])
}

/// The gaps of both layouts are whitespace.
pub proof fn lemma_gaps(layout: Layout, depth: nat, count: int)
    ensures
        all_space(open_gap(layout, depth, count)),
        all_space(item_gap(layout, depth)),
        all_space(close_gap(layout, depth)),
{
}

/// Whitespace stands in `s` at `at` and a byte that is none behind it:
/// skipping from `at` leads behind the whitespace.
pub proof fn lemma_skip_gap(s: Seq<u8>, at: int, gap: Seq<u8>)
    requires
        starts_with(s, at, gap),
        all_space(gap),
        at + gap.len() == s.len() || !is_space(s[at + gap.len()]),
    ensures
        skip_spaces(s, at) == at + gap.len(),
{
    assert forall|i: int| at <= i < at + gap.len() implies is_space(#[trigger] s[i]) by {
        lemma_starts_with_byte(s, at, gap, i - at);
    }
    lemma_skip_run(s, at, at + gap.len());
}

/// The number of items of a list.
pub open spec fn count_of(v: Model) -> int {
    match v {
        Model::Array(items) => items.len() as int,
        Model::Object(members) => members.len() as int,
        _ => 0,
    }
}

/// The kind of the items of a list.
pub open spec fn kind_of(v: Model) -> ItemKind {
    if v is Array {
        ItemKind::Value
    } else {
        ItemKind::Member
    }
}

/// The bracket that opens a list.
pub open spec fn open_byte(v: Model) -> u8 {
    if v is Array {
        OPEN_BRACKET
    } else {
        OPEN_BRACE
    }
}

/// The bracket that closes a list.
pub open spec fn close_byte(v: Model) -> u8 {
    if v is Array {
        CLOSE_BRACKET
    } else {
        CLOSE_BRACE
    }
}

/// The value of item number `i` of a list.
pub open spec fn child_of(v: Model, i: int) -> Model {
    match v {
        Model::Array(items) => items[i],
        Model::Object(members) => members[i].1,
        _ => Model::Null,
    }
}

/// Item number `i` of a list.
pub open spec fn item_of(v: Model, i: int) -> Item {
    match v {
        Model::Object(members) => Item::Member(members[i].0, members[i].1),
        _ => Item::Value(child_of(v, i)),
    }
}

/// The items of a list from number `i` on.
pub open spec fn items_from(v: Model, i: int) -> Seq<Item> {
    Seq::new((count_of(v) - i) as nat, |k: int| item_of(v, i + k))
}

/// What stands before the value in the text of item number `i`: for a
/// member its key, the colon and a space.
pub open spec fn item_head(v: Model, i: int) -> Seq<u8> {
    match v {
        Model::Object(members) => quoted(members[i].0) + seq![COLON, SPACE],
        _ => Seq::empty(),
    }
}

/// The text of item number `i` of a list at `depth`.
pub open spec fn item_text(v: Model, i: int, layout: Layout, depth: nat) -> Seq<u8> {
    item_head(v, i) + layout_text(child_of(v, i), layout, depth + 1)
}

/// The text of the first `count` items of a list at `depth`.
pub open spec fn prefix_text(v: Model, count: int, layout: Layout, depth: nat) -> Seq<u8> {
    match v {
        Model::Array(items) => layout_items(items, count, layout, depth),
        Model::Object(members) => layout_members(members, count, layout, depth),
        _ => Seq::empty(),
    }
}

/// How the text of the first items of a list is made: of the text of one
/// item fewer, a comma, a gap and the text of the last of them.
pub proof fn lemma_prefix_step(v: Model, count: int, layout: Layout, depth: nat)
    requires
        v is Array || v is Object,
        1 <= count <= count_of(v),
    ensures
        count == 1 ==> prefix_text(v, count, layout, depth) == item_text(v, 0, layout, depth),
        count > 1 ==> prefix_text(v, count, layout, depth) == prefix_text(
            v,
            count - 1,
            layout,
            depth,
        ) + (seq![COMMA] + item_gap(layout, depth) + item_text(v, count - 1, layout, depth)),
{
    let last = child_of(v, count - 1);
    let t = layout_text(last, layout, depth + 1);
    if v is Array {
        assert(item_text(v, count - 1, layout, depth) =~= t);
    } else {
        assert(item_text(v, count - 1, layout, depth) =~= member_text(
            v->Object_0[count - 1].0,
            t,
        ));
    }
    if count > 1 {
        let front = prefix_text(v, count - 1, layout, depth);
        let it = item_text(v, count - 1, layout, depth);
        assert(front + seq![COMMA] + item_gap(layout, depth) + it =~= front + (seq![COMMA]
            + item_gap(layout, depth) + it));
    }
}

/// Where the text of all items of a list stands, the text of its first
/// `count` items stands, and behind it a comma, a gap and the next item.
pub proof fn lemma_prefix_parts(
    v: Model,
    layout: Layout,
    depth: nat,
    s: Seq<u8>,
    at: int,
    count: int,
)
    requires
        v is Array || v is Object,
        1 <= count <= count_of(v),
        starts_with(s, at, prefix_text(v, count_of(v), layout, depth)),
    ensures
        starts_with(s, at, prefix_text(v, count, layout, depth)),
        count < count_of(v) ==> starts_with(
            s,
            at + prefix_text(v, count, layout, depth).len(),
            seq![COMMA] + item_gap(layout, depth) + item_text(v, count, layout, depth),
        ),
    decreases count_of(v) - count,
{
    if count < count_of(v) {
        lemma_prefix_parts(v, layout, depth, s, at, count + 1);
        lemma_prefix_step(v, count + 1, layout, depth);
        lemma_starts_with_parts(
            s,
            at,
            prefix_text(v, count, layout, depth),
            seq![COMMA] + item_gap(layout, depth) + item_text(v, count, layout, depth),
        );
    }
}

/// Where the walk over a list enters item number `i`: at the start of the
/// list, or behind the comma that follows the item before.
pub open spec fn entry_of(v: Model, layout: Layout, depth: nat, start: int, i: int) -> int {
    if i == 0 {
        start
    } else {
        start + prefix_text(v, i, layout, depth).len() + 1
    }
}

/// The text of a well-formed value, at any depth and in either layout, is
/// read back as the value, if what follows does not continue a number.
pub proof fn lemma_value_read_back(v: Model, layout: Layout, depth: nat, s: Seq<u8>, at: int)
    requires
        well_formed(v),
        starts_with(s, at, layout_text(v, layout, depth)),
        at + layout_text(v, layout, depth).len() == s.len() || !continues_number(
            s[at + layout_text(v, layout, depth).len()],
        ),
    ensures
        value_at(s, at) == Ok::<(Model, int), ParseError>(
            (v, at + layout_text(v, layout, depth).len()),
        ),
    decreases v, count_of(v) + 3,
{
    if v is Array || v is Object {
        let t = layout_text(v, layout, depth);
        lemma_container_read_back(v, layout, depth, s, at);
        lemma_starts_with_byte(s, at, t, 0);
        let items = items_from(v, 0);
        lemma_value_is_list(s, at, v is Array, items, at + t.len());
        match v {
            Model::Array(values) => {
                assert(values_of(items) =~= values);
            },
            Model::Object(members) => {
                assert(pairs_of(items) =~= members);
                lemma_members_of_risen(members);
            },
            _ => {},
        }
    } else {
        lemma_scalar_read_back(v, s, at);
    }
}

/// What the grammar reads between brackets, given what it reads of the
/// list between them.
proof fn lemma_bracketed_step(
    s: Seq<u8>,
    at: int,
    kind: ItemKind,
    open: u8,
    close: u8,
    start: int,
    items: Seq<Item>,
    end: int,
)
    requires
        0 <= at < start <= end < s.len(),
        s[at] == open,
        skip_spaces(s, at + 1) == start,
        list_at(s, start, kind, true) == Ok::<(Seq<Item>, int), ParseError>((items, end)),
        s[end] == close,
        !is_space(close),
    ensures
        bracketed_at(s, at, kind, open, close) == Ok::<(Seq<Item>, int), ParseError>(
            (items, end + 1),
        ),
{
    reveal(list_at);
    lemma_skip_run(s, end, end);
}

/// At a closing bracket a list that has just begun is empty.
proof fn lemma_list_empty(s: Seq<u8>, at: int, kind: ItemKind)
    requires
        0 <= at < s.len(),
        s[at] == CLOSE_BRACKET || s[at] == CLOSE_BRACE,
    ensures
        list_at(s, at, kind, true) == Ok::<(Seq<Item>, int), ParseError>((Seq::empty(), at)),
{
    reveal(list_at);
    lemma_no_value(s, at);
    lemma_skip_run(s, at, at);
    assert(element_at(s, at) == Err::<(Model, int), ParseError>(soft(ErrorKind::Syntax, at)));
    assert(item_at(s, at, kind) == Err::<(Item, int), ParseError>(soft(ErrorKind::Syntax, at)));
}

/// Where the parts of the text of a list stand: the opening bracket at
/// `at`, the gap behind it, the items at `start`, the gap before the
/// closing bracket, and the closing bracket at `end`.
pub open spec fn list_stands(
    v: Model,
    layout: Layout,
    depth: nat,
    s: Seq<u8>,
    at: int,
    start: int,
    end: int,
) -> bool {
    let n = count_of(v);
    let og = open_gap(layout, depth, n);
    let body = prefix_text(v, n, layout, depth);
    let cg = close_gap(layout, depth);
    &&& 0 <= at
    &&& start == at + 1 + og.len()
    &&& end == start + body.len() + cg.len()
    &&& end < s.len()
    &&& end + 1 == at + layout_text(v, layout, depth).len()
    &&& s[at] == open_byte(v)
    &&& starts_with(s, at + 1, og)
    &&& starts_with(s, start, body)
    &&& starts_with(s, start + body.len(), cg + seq![close_byte(v)])
    &&& starts_with(s, start + body.len(), cg)
    &&& s[end] == close_byte(v)
}

/// The parts of the text of a list stand where the text stands.
proof fn lemma_list_stands(v: Model, layout: Layout, depth: nat, s: Seq<u8>, at: int)
    requires
        v is Array || v is Object,
        starts_with(s, at, layout_text(v, layout, depth)),
    ensures
        list_stands(
            v,
            layout,
            depth,
            s,
            at,
            at + 1 + open_gap(layout, depth, count_of(v)).len(),
            at + layout_text(v, layout, depth).len() - 1,
        ),
{
    let n = count_of(v);
    let og = open_gap(layout, depth, n);
    let body = prefix_text(v, n, layout, depth);
    let cg = close_gap(layout, depth);
    let t = layout_text(v, layout, depth);
    assert(t =~= (seq![open_byte(v)] + og + body) + (cg + seq![close_byte(v)]));
    lemma_starts_with_parts(s, at, seq![open_byte(v)] + og + body, cg + seq![close_byte(v)]);
    lemma_starts_with_parts(s, at, seq![open_byte(v)] + og, body);
    lemma_starts_with_parts(s, at, seq![open_byte(v)], og);
    lemma_starts_with_byte(s, at, seq![open_byte(v)], 0);
    let start = at + 1 + og.len();
    let behind = start + body.len();
    lemma_starts_with_parts(s, behind, cg, seq![close_byte(v)]);
    lemma_starts_with_byte(s, behind + cg.len(), seq![close_byte(v)], 0);
}

/// Between the brackets of an empty list only whitespace stands.
proof fn lemma_empty_list_gap(v: Model, layout: Layout, depth: nat, s: Seq<u8>, at: int, end: int)
    requires
        count_of(v) == 0,
        list_stands(v, layout, depth, s, at, end - close_gap(layout, depth).len(), end),
    ensures
        skip_spaces(s, at + 1) == end,
{
    let og = open_gap(layout, depth, 0);
    let cg = close_gap(layout, depth);
    let start = at + 1 + og.len();
    lemma_gaps(layout, depth, 0);
    assert forall|j: int| at + 1 <= j < end implies is_space(#[trigger] s[j]) by {
        if j < start {
            lemma_starts_with_byte(s, at + 1, og, j - (at + 1));
        } else {
            lemma_starts_with_byte(s, start, cg, j - start);
        }
    }
    lemma_skip_run(s, at + 1, end);
}

/// What the grammar reads of a value that begins with a bracket, given
/// what it reads between the brackets.
proof fn lemma_value_is_list(s: Seq<u8>, at: int, array: bool, items: Seq<Item>, end: int)
    requires
        0 <= at < s.len(),
        array ==> s[at] == OPEN_BRACKET && bracketed_at(
            s,
            at,
            ItemKind::Value,
            OPEN_BRACKET,
            CLOSE_BRACKET,
        ) == Ok::<(Seq<Item>, int), ParseError>((items, end)),
        !array ==> s[at] == OPEN_BRACE && bracketed_at(
            s,
            at,
            ItemKind::Member,
            OPEN_BRACE,
            CLOSE_BRACE,
        ) == Ok::<(Seq<Item>, int), ParseError>((items, end)),
    ensures
        array ==> value_at(s, at) == Ok::<(Model, int), ParseError>(
            (Model::Array(values_of(items)), end),
        ),
        !array ==> value_at(s, at) == Ok::<(Model, int), ParseError>(
            (Model::Object(members_of(pairs_of(items))), end),
        ),
{
    reveal(value_at);
    lemma_not_literal(s, at, null_text(), Model::Null);
    lemma_not_literal(s, at, true_text(), Model::Bool(true));
    lemma_not_literal(s, at, false_text(), Model::Bool(false));
}

/// The text of a well-formed list is read back, between its brackets, as
/// the items of the list.
pub proof fn lemma_container_read_back(v: Model, layout: Layout, depth: nat, s: Seq<u8>, at: int)
    requires
        v is Array || v is Object,
        well_formed(v),
        starts_with(s, at, layout_text(v, layout, depth)),
    ensures
        bracketed_at(s, at, kind_of(v), open_byte(v), close_byte(v)) == Ok::<
            (Seq<Item>, int),
            ParseError,
        >((items_from(v, 0), at + layout_text(v, layout, depth).len())),
    decreases v, count_of(v) + 2,
{
    let n = count_of(v);
    let og = open_gap(layout, depth, n);
    let start = at + 1 + og.len();
    let end = at + layout_text(v, layout, depth).len() - 1;
    lemma_list_stands(v, layout, depth, s, at);
    if n == 0 {
        assert(prefix_text(v, n, layout, depth) =~= Seq::<u8>::empty());
        lemma_empty_list_gap(v, layout, depth, s, at, end);
        lemma_list_empty(s, end, kind_of(v));
        assert(items_from(v, 0) =~= Seq::<Item>::empty());
        lemma_bracketed_step(
            s,
            at,
            kind_of(v),
            open_byte(v),
            close_byte(v),
            end,
            Seq::empty(),
            end,
        );
    } else {
        lemma_first_item_stands(v, layout, depth, s, start);
        lemma_gaps(layout, depth, n);
        lemma_skip_gap(s, at + 1, og);
        lemma_list_read_back(v, layout, depth, s, start, 0);
        lemma_bracketed_step(
            s,
            at,
            kind_of(v),
            open_byte(v),
            close_byte(v),
            start,
            items_from(v, 0),
            end,
        );
    }
}

/// The first item of a list stands at the start of its items, and begins
/// with a byte that is no whitespace.
proof fn lemma_first_item_stands(v: Model, layout: Layout, depth: nat, s: Seq<u8>, start: int)
    requires
        v is Array || v is Object,
        well_formed(v),
        count_of(v) >= 1,
        starts_with(s, start, prefix_text(v, count_of(v), layout, depth)),
    ensures
        start < s.len(),
        opens_value(s[start]),
{
    lemma_prefix_parts(v, layout, depth, s, start, 1);
    lemma_prefix_step(v, 1, layout, depth);
    lemma_item_first(v, 0, layout, depth);
    lemma_starts_with_byte(s, start, item_text(v, 0, layout, depth), 0);
}

/// The text of an item begins with a byte that is no whitespace.
pub proof fn lemma_item_first(v: Model, i: int, layout: Layout, depth: nat)
    requires
        v is Array || v is Object,
        well_formed(v),
        0 <= i < count_of(v),
    ensures
        item_text(v, i, layout, depth).len() >= 1,
        opens_value(item_text(v, i, layout, depth)[0]),
{
    match v {
        Model::Array(items) => {
            assert(well_formed(items[i]));
            lemma_layout_first(items[i], layout, depth + 1);
            assert(item_text(v, i, layout, depth) =~= layout_text(items[i], layout, depth + 1));
        },
        Model::Object(members) => {
            assert(item_text(v, i, layout, depth)[0] == QUOTE);
        },
        _ => {},
    }
}

/// What the grammar reads of a list whose first item is followed by a
/// comma.
proof fn lemma_list_more(
    s: Seq<u8>,
    at: int,
    kind: ItemKind,
    first: bool,
    item: Item,
    next: int,
    rest: Seq<Item>,
    end: int,
)
    requires
        0 <= at < next < s.len(),
        item_at(s, at, kind) == Ok::<(Item, int), ParseError>((item, next)),
        s[next] == COMMA,
        list_at(s, next + 1, kind, false) == Ok::<(Seq<Item>, int), ParseError>((rest, end)),
    ensures
        list_at(s, at, kind, first) == Ok::<(Seq<Item>, int), ParseError>(
            (seq![item] + rest, end),
        ),
{
    reveal(list_at);
}

/// What the grammar reads of a list whose first item is followed by no
/// comma.
proof fn lemma_list_last(s: Seq<u8>, at: int, kind: ItemKind, first: bool, item: Item, next: int)
    requires
        0 <= at < next < s.len(),
        item_at(s, at, kind) == Ok::<(Item, int), ParseError>((item, next)),
        s[next] != COMMA,
    ensures
        list_at(s, at, kind, first) == Ok::<(Seq<Item>, int), ParseError>((seq![item], next)),
{
    reveal(list_at);
}

/// What the grammar reads of an element, given the value in it.
proof fn lemma_element_step(s: Seq<u8>, at: int, from: int, v: Model, value_end: int, next: int)
    requires
        0 <= at <= from <= s.len(),
        skip_spaces(s, at) == from,
        value_at(s, from) == Ok::<(Model, int), ParseError>((v, value_end)),
        skip_spaces(s, value_end) == next,
    ensures
        element_at(s, at) == Ok::<(Model, int), ParseError>((v, next)),
{
    reveal(value_at);
}

/// What the grammar reads of a member, given its key and the element
/// behind the colon.
proof fn lemma_member_step(
    s: Seq<u8>,
    at: int,
    from: int,
    key: Seq<u8>,
    colon: int,
    v: Model,
    next: int,
)
    requires
        0 <= at <= from <= colon < s.len(),
        skip_spaces(s, at) == from,
        string_at(s, from) == Ok::<(Seq<u8>, int), ParseError>((key, colon)),
        s[colon] == COLON,
        element_at(s, colon + 1) == Ok::<(Model, int), ParseError>((v, next)),
    ensures
        item_at(s, at, ItemKind::Member) == Ok::<(Item, int), ParseError>(
            (Item::Member(key, v), next),
        ),
{
    lemma_skip_run(s, colon, colon);
}

/// Where the text of item number `i` of a list begins, whose items stand
/// at `start`.
pub open spec fn from_of(v: Model, layout: Layout, depth: nat, start: int, i: int) -> int {
    if i == 0 {
        start
    } else {
        entry_of(v, layout, depth, start, i) + item_gap(layout, depth).len()
    }
}

/// Item number `i` stands in its place: whitespace from where the walk
/// enters it up to its text, its text, and behind that a comma if another
/// item follows.
pub open spec fn item_placed(
    v: Model,
    layout: Layout,
    depth: nat,
    s: Seq<u8>,
    start: int,
    i: int,
) -> bool {
    let entry = entry_of(v, layout, depth, start, i);
    let from = from_of(v, layout, depth, start, i);
    let it = item_text(v, i, layout, depth);
    &&& 0 <= start <= entry <= from
    &&& forall|j: int| entry <= j < from ==> is_space(#[trigger] s[j])
    &&& starts_with(s, from, it)
    &&& from + it.len() == start + prefix_text(v, i + 1, layout, depth).len()
    &&& i + 1 < count_of(v) ==> from + it.len() < s.len() && s[from + it.len()] == COMMA
}

/// Every item of a list stands in its place where the text of the items
/// stands.
proof fn lemma_item_placed(v: Model, layout: Layout, depth: nat, s: Seq<u8>, start: int, i: int)
    requires
        v is Array || v is Object,
        0 <= i < count_of(v),
        starts_with(s, start, prefix_text(v, count_of(v), layout, depth)),
    ensures
        item_placed(v, layout, depth, s, start, i),
{
    let n = count_of(v);
    let gap = item_gap(layout, depth);
    let it = item_text(v, i, layout, depth);
    let entry = entry_of(v, layout, depth, start, i);
    let from = from_of(v, layout, depth, start, i);
    lemma_gaps(layout, depth, n);
    lemma_prefix_parts(v, layout, depth, s, start, i + 1);
    lemma_prefix_step(v, i + 1, layout, depth);
    if i > 0 {
        let front = prefix_text(v, i, layout, depth);
        assert(seq![COMMA] + gap + it =~= (seq![COMMA] + gap) + it);
        lemma_starts_with_parts(s, start, front, seq![COMMA] + gap + it);
        lemma_starts_with_parts(s, start + front.len(), seq![COMMA] + gap, it);
        lemma_starts_with_parts(s, start + front.len(), seq![COMMA], gap);
        assert forall|j: int| entry <= j < from implies is_space(#[trigger] s[j]) by {
            lemma_starts_with_byte(s, entry, gap, j - entry);
        }
    }
    if i + 1 < n {
        let more = seq![COMMA] + gap + item_text(v, i + 1, layout, depth);
        lemma_starts_with_byte(s, from + it.len(), more, 0);
    }
}

/// The items of a well-formed list from number `i` on are read back.
pub proof fn lemma_list_read_back(
    v: Model,
    layout: Layout,
    depth: nat,
    s: Seq<u8>,
    start: int,
    i: int,
)
    requires
        v is Array || v is Object,
        well_formed(v),
        0 <= i < count_of(v),
        starts_with(s, start, prefix_text(v, count_of(v), layout, depth)),
        starts_with(
            s,
            start + prefix_text(v, count_of(v), layout, depth).len(),
            close_gap(layout, depth) + seq![close_byte(v)],
        ),
    ensures
        list_at(s, entry_of(v, layout, depth, start, i), kind_of(v), i == 0) == Ok::<
            (Seq<Item>, int),
            ParseError,
        >(
            (
                items_from(v, i),
                start + prefix_text(v, count_of(v), layout, depth).len() + close_gap(
                    layout,
                    depth,
                ).len(),
            ),
        ),
    decreases v, count_of(v) - i + 1,
{
    let n = count_of(v);
    let cg = close_gap(layout, depth);
    let it = item_text(v, i, layout, depth);
    let behind = start + prefix_text(v, n, layout, depth).len();
    let end = behind + cg.len();
    let entry = entry_of(v, layout, depth, start, i);
    let from = from_of(v, layout, depth, start, i);
    let next = from + it.len();
    lemma_item_placed(v, layout, depth, s, start, i);
    lemma_item_first(v, i, layout, depth);
    if i + 1 < n {
        lemma_item_read_back(v, layout, depth, s, i, entry, from, next);
        lemma_list_read_back(v, layout, depth, s, start, i + 1);
        lemma_list_more(
            s,
            entry,
            kind_of(v),
            i == 0,
            item_of(v, i),
            next,
            items_from(v, i + 1),
            end,
        );
        assert(seq![item_of(v, i)] + items_from(v, i + 1) =~= items_from(v, i));
    } else {
        lemma_gaps(layout, depth, n);
        lemma_starts_with_parts(s, behind, cg, seq![close_byte(v)]);
        lemma_starts_with_byte(s, end, seq![close_byte(v)], 0);
        assert forall|j: int| next <= j < end implies is_space(#[trigger] s[j]) by {
            lemma_starts_with_byte(s, behind, cg, j - behind);
        }
        lemma_item_read_back(v, layout, depth, s, i, entry, from, end);
        lemma_list_last(s, entry, kind_of(v), i == 0, item_of(v, i), end);
        assert(seq![item_of(v, i)] =~= items_from(v, i));
    }
}

/// Item number `i` of a well-formed list is read back: whitespace from
/// `entry` up to `from`, the text of the item at `from`, whitespace behind
/// it up to `next`, where a comma or a bracket stands.
pub proof fn lemma_item_read_back(
    v: Model,
    layout: Layout,
    depth: nat,
    s: Seq<u8>,
    i: int,
    entry: int,
    from: int,
    next: int,
)
    requires
        v is Array || v is Object,
        well_formed(v),
        0 <= i < count_of(v),
        0 <= entry <= from,
        forall|j: int| entry <= j < from ==> is_space(#[trigger] s[j]),
        starts_with(s, from, item_text(v, i, layout, depth)),
        from + item_text(v, i, layout, depth).len() <= next < s.len(),
        forall|j: int|
            from + item_text(v, i, layout, depth).len() <= j < next ==> is_space(#[trigger] s[j]),
        !is_space(s[next]),
        !continues_number(s[next]),
    ensures
        item_at(s, entry, kind_of(v)) == Ok::<(Item, int), ParseError>((item_of(v, i), next)),
    decreases v, 0int,
{
    let child = child_of(v, i);
    let head = item_head(v, i);
    let text = layout_text(child, layout, depth + 1);
    let it = item_text(v, i, layout, depth);
    let value_start = from + head.len();
    let value_end = value_start + text.len();
    lemma_item_first(v, i, layout, depth);
    lemma_starts_with_byte(s, from, it, 0);
    lemma_skip_run(s, entry, from);
    lemma_starts_with_parts(s, from, head, text);
    crate::pretty::lemma_child_well_formed(v, i);
    lemma_layout_first(child, layout, depth + 1);
    lemma_starts_with_byte(s, value_start, text, 0);
    if value_end < next {
        assert(is_space(s[value_end]));
    }
    lemma_value_read_back(child, layout, depth + 1, s, value_start);
    lemma_skip_run(s, value_end, next);
    match v {
        Model::Object(members) => {
            let key = members[i].0;
            lemma_starts_with_parts(s, from, quoted(key), seq![COLON, SPACE]);
            let colon = from + quoted(key).len();
            lemma_starts_with_byte(s, colon, seq![COLON, SPACE], 0);
            lemma_starts_with_byte(s, colon, seq![COLON, SPACE], 1);
            lemma_quoted_read_back(s, from, key);
            lemma_skip_run(s, colon + 1, colon + 2);
            lemma_element_step(s, colon + 1, value_start, child, value_end, next);
            lemma_member_step(s, entry, from, key, colon, child, next);
        },
        _ => {
            assert(head =~= Seq::<u8>::empty());
            lemma_element_step(s, entry, from, child, value_end, next);
        },
    }
}

/// The text of a well-formed value, in either layout, is read back as the
/// value when it is the whole document.
pub proof fn lemma_document_read_back(v: Model, layout: Layout)
    requires
        well_formed(v),
    ensures
        document(layout_text(v, layout, 0)) == Ok::<Model, ParseError>(v),
{
    let s = layout_text(v, layout, 0);
    let len = s.len() as int;
    assert(s.subrange(0, len) =~= s);
    lemma_layout_first(v, layout, 0);
    lemma_skip_run(s, 0, 0);
    lemma_value_read_back(v, layout, 0, s, 0);
    lemma_skip_run(s, len, len);
    lemma_element_step(s, 0, 0, v, len, len);
}

} // verus!
