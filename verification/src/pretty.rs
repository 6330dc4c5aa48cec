//! The pretty form, line by line: how indenting a text that is already laid
//! out moves it one step deeper.

use crate::escape::{escape_byte, escaped};
use crate::model::{well_formed, Model};
use crate::number::{lemma_number_bytes, nat_text, MINUS};
use crate::pad::{ends_line, indent_unit, indented, lemma_indented_concat, lemma_indented_line, margin};
use crate::render::{
    member_text, pretty_items, pretty_members, pretty_separator, pretty_text, quoted, scalar_text,
};
use crate::roundtrip::{
    child_of, close_byte, count_of, item_gap, item_head, layout_text, lemma_nat_text,
    lemma_prefix_step, line_gap, open_byte, prefix_text, spaces, Layout,
};
use crate::text::{BACKSLASH, COLON, COMMA, NEWLINE, QUOTE, SPACE};
use vstd::prelude::*;

verus! {

/// No line break in the text.
pub open spec fn one_line(x: Seq<u8>) -> bool {
    forall|i: int| 0 <= i < x.len() ==> (#[trigger] x[i]) != NEWLINE
}

/// A text that is not empty and does not end with a line break.
pub open spec fn ends_open(x: Seq<u8>) -> bool {
    x.len() >= 1 && x.last() != NEWLINE
}

/// Two texts without line break make one without line break.
pub proof fn lemma_one_line_concat(a: Seq<u8>, b: Seq<u8>)
    requires
        one_line(a),
        one_line(b),
    ensures
        one_line(a + b),
{
    assert forall|i: int| 0 <= i < (a + b).len() implies (#[trigger] (a + b)[i]) != NEWLINE by {
        if i < a.len() {
            assert((a + b)[i] == a[i]);
        } else {
            assert((a + b)[i] == b[i - a.len()]);
        }
    }
}

/// An escaped text holds no line break.
pub proof fn lemma_escaped_one_line(x: Seq<u8>)
    ensures
        one_line(escaped(x)),
    decreases x.len(),
{
    if x.len() > 0 {
        lemma_escaped_one_line(x.drop_first());
        assert(one_line(escape_byte(x[0])));
        lemma_one_line_concat(escape_byte(x[0]), escaped(x.drop_first()));
    }
}

/// A string literal holds no line break.
pub proof fn lemma_quoted_one_line(x: Seq<u8>)
    ensures
        one_line(quoted(x)),
        quoted(x).len() >= 2,
        quoted(x).last() == QUOTE,
        quoted(x)[0] == QUOTE,
{
    lemma_escaped_one_line(x);
    lemma_one_line_concat(seq![QUOTE], escaped(x));
    lemma_one_line_concat(seq![QUOTE] + escaped(x), seq![QUOTE]);
}

/// The text of a well-formed value that holds no other value is not empty
/// and holds no line break.
pub proof fn lemma_scalar_one_line(v: Model)
    requires
        well_formed(v),
        !(v is Array),
        !(v is Object),
    ensures
        one_line(scalar_text(v)),
        scalar_text(v).len() >= 1,
{
    match v {
        Model::Int(i) => {
            if i < 0 {
                lemma_nat_text((-i) as nat);
                lemma_one_line_concat(seq![MINUS], nat_text((-i) as nat));
            } else {
                lemma_nat_text(i as nat);
            }
        },
        Model::Float(text) => {
            lemma_number_bytes(text, 0);
            crate::number::lemma_number_span_bounds(text, 0);
        },
        Model::String(x) => {
            lemma_quoted_one_line(x);
        },
        _ => {},
    }
}

/// Indenting leaves a text without line break as it is, but for its margin.
pub proof fn lemma_indented_one_line(x: Seq<u8>, on_newline: bool)
    requires
        one_line(x),
    ensures
        x.len() >= 1 ==> indented(x, on_newline) == margin(on_newline) + x,
        x.len() >= 1 ==> !ends_line(x, on_newline),
        x.len() == 0 ==> indented(x, on_newline) == x,
{
    if x.len() >= 1 {
        lemma_indented_line(x, on_newline);
    }
}

/// What follows a line break is indented by one step more than what does
/// not.
pub proof fn lemma_indented_head(y: Seq<u8>)
    requires
        y.len() >= 1,
    ensures
        indented(y, true) == indent_unit() + indented(y, false),
{
    assert(margin(false) + seq![y[0]] + indented(y.drop_first(), y[0] == NEWLINE) =~= seq![y[0]]
        + indented(y.drop_first(), y[0] == NEWLINE));
    assert(indented(y, true) =~= indent_unit() + indented(y, false));
}

/// Indenting a line gap and what follows it makes the gap one step deeper.
pub proof fn lemma_indent_gap(k: nat, rest: Seq<u8>)
    requires
        rest.len() >= 1,
    ensures
        indented(line_gap(k) + rest, false) == line_gap(k + 1) + indented(rest, false),
{
    let pad = spaces(4 * k);
    let y = pad + rest;
    assert(line_gap(k) + rest =~= seq![NEWLINE] + y);
    lemma_indented_concat(seq![NEWLINE], y, false);
    assert(one_line(pad));
    lemma_indented_one_line(seq![NEWLINE].drop_first(), true);
    assert(indented(seq![NEWLINE], false) =~= seq![NEWLINE]) by {
        assert(seq![NEWLINE].drop_first() =~= Seq::<u8>::empty());
    }
    lemma_indented_head(y);
    lemma_indented_concat(pad, rest, false);
    lemma_indented_one_line(pad, false);
    assert(margin(false) + pad =~= pad);
    assert(indented(pad, false) == pad);
    assert(ends_line(pad, false) == false);
    assert(seq![NEWLINE] + (indent_unit() + (pad + indented(rest, false))) =~= line_gap(k + 1)
        + indented(rest, false)) by {
        assert(spaces(4 * (k + 1)) =~= indent_unit() + pad);
    }
}

/// The text of an item of a list whose items stand at depth `k`.
pub open spec fn item_at_depth(v: Model, i: int, k: nat) -> Seq<u8> {
    item_head(v, i) + layout_text(child_of(v, i), Layout::Pretty, k)
}

/// The first `count` items of a list, each laid out at depth `k`, with a
/// comma and the line gap of depth `k` between each two.
pub open spec fn joined(v: Model, count: int, k: nat) -> Seq<u8>
    decreases count,
{
    if count <= 0 || count > count_of(v) {
        Seq::<u8>::empty()
    } else if count == 1 {
        item_at_depth(v, 0, k)
    } else {
        joined(v, count - 1, k) + (seq![COMMA] + line_gap(k)) + item_at_depth(v, count - 1, k)
    }
}

/// The items of a pretty list at depth `depth` are joined at the depth
/// below.
pub proof fn lemma_prefix_joined(v: Model, count: int, depth: nat)
    requires
        v is Array || v is Object,
        0 <= count <= count_of(v),
    ensures
        prefix_text(v, count, Layout::Pretty, depth) == joined(v, count, depth + 1),
    decreases count,
{
    if count >= 1 {
        lemma_prefix_step(v, count, Layout::Pretty, depth);
        if count > 1 {
            lemma_prefix_joined(v, count - 1, depth);
            let front = joined(v, count - 1, depth + 1);
            let gap = line_gap(depth + 1);
            let it = item_at_depth(v, count - 1, depth + 1);
            assert(front + (seq![COMMA] + gap + it) =~= front + (seq![COMMA] + gap) + it);
        }
    }
}

/// The head of an item holds no line break.
proof fn lemma_item_head_one_line(v: Model, i: int)
    ensures
        one_line(item_head(v, i)),
{
    match v {
        Model::Object(members) => {
            lemma_quoted_one_line(members[i].0);
            lemma_one_line_concat(quoted(members[i].0), seq![COLON, SPACE]);
        },
        _ => {},
    }
}

/// The value of an item of a well-formed list is well-formed.
pub proof fn lemma_child_well_formed(v: Model, i: int)
    requires
        v is Array || v is Object,
        well_formed(v),
        0 <= i < count_of(v),
    ensures
        well_formed(child_of(v, i)),
{
    match v {
        Model::Array(items) => {
            assert(well_formed(items[i]));
        },
        Model::Object(members) => {
            assert(well_formed(members[i].1));
        },
        _ => {},
    }
}

/// Indenting an empty list between brackets moves its two line gaps one
/// step deeper.
proof fn lemma_shift_frame_empty(open: u8, close: u8, depth: nat)
    requires
        open != NEWLINE,
        close != NEWLINE,
    ensures
        indented(seq![open] + line_gap(depth) + line_gap(depth) + seq![close], false) == seq![
            open,
        ] + line_gap(depth + 1) + line_gap(depth + 1) + seq![close],
{
    let o = seq![open];
    let c = seq![close];
    assert(one_line(o) && one_line(c));
    lemma_indented_one_line(o, false);
    lemma_indented_one_line(c, false);
    assert(margin(false) + o =~= o);
    assert(margin(false) + c =~= c);
    let tail = line_gap(depth) + c;
    let rest = line_gap(depth) + tail;
    assert(o + line_gap(depth) + line_gap(depth) + c =~= o + rest);
    lemma_indented_concat(o, rest, false);
    lemma_indent_gap(depth, tail);
    lemma_indent_gap(depth, c);
    assert(o + (line_gap(depth + 1) + (line_gap(depth + 1) + c)) =~= o + line_gap(depth + 1)
        + line_gap(depth + 1) + c);
}

/// Indenting a list between brackets moves its line gaps one step deeper
/// and indents its items.
proof fn lemma_shift_frame(open: u8, close: u8, depth: nat, body: Seq<u8>, deeper: Seq<u8>)
    requires
        open != NEWLINE,
        close != NEWLINE,
        ends_open(body),
        indented(body, false) == deeper,
    ensures
        indented(seq![open] + line_gap(depth + 1) + body + line_gap(depth) + seq![close], false)
            == seq![open] + line_gap(depth + 2) + deeper + line_gap(depth + 1) + seq![close],
{
    let o = seq![open];
    let c = seq![close];
    assert(one_line(o) && one_line(c));
    lemma_indented_one_line(o, false);
    lemma_indented_one_line(c, false);
    assert(margin(false) + o =~= o);
    assert(margin(false) + c =~= c);
    let tail = line_gap(depth) + c;
    let inner = body + tail;
    let rest = line_gap(depth + 1) + inner;
    assert(o + line_gap(depth + 1) + body + line_gap(depth) + c =~= o + rest);
    lemma_indented_concat(o, rest, false);
    lemma_indent_gap(depth + 1, inner);
    lemma_indented_concat(body, tail, false);
    lemma_indent_gap(depth, c);
    assert(o + (line_gap(depth + 2) + (deeper + (line_gap(depth + 1) + c))) =~= o + line_gap(
        depth + 2,
    ) + deeper + line_gap(depth + 1) + c);
}

/// Indenting the pretty text of a well-formed value at some depth gives its
/// pretty text one step deeper.
pub proof fn lemma_shift(v: Model, depth: nat)
    requires
        well_formed(v),
    ensures
        indented(layout_text(v, Layout::Pretty, depth), false) == layout_text(
            v,
            Layout::Pretty,
            depth + 1,
        ),
        ends_open(layout_text(v, Layout::Pretty, depth)),
    decreases v, 1int, 0int,
{
    if v is Array || v is Object {
        let n = count_of(v);
        let text = layout_text(v, Layout::Pretty, depth);
        assert(text.last() == close_byte(v));
        if n == 0 {
            assert(prefix_text(v, n, Layout::Pretty, depth) =~= Seq::<u8>::empty());
            assert(prefix_text(v, n, Layout::Pretty, depth + 1) =~= Seq::<u8>::empty());
            lemma_shift_frame_empty(open_byte(v), close_byte(v), depth);
            assert(text =~= seq![open_byte(v)] + line_gap(depth) + line_gap(depth) + seq![
                close_byte(v),
            ]);
            assert(layout_text(v, Layout::Pretty, depth + 1) =~= seq![open_byte(v)] + line_gap(
                depth + 1,
            ) + line_gap(depth + 1) + seq![close_byte(v)]);
        } else {
            lemma_prefix_joined(v, n, depth);
            lemma_prefix_joined(v, n, depth + 1);
            lemma_shift_joined(v, n, depth + 1);
            lemma_shift_frame(
                open_byte(v),
                close_byte(v),
                depth,
                joined(v, n, depth + 1),
                joined(v, n, depth + 2),
            );
        }
    } else {
        lemma_scalar_one_line(v);
        lemma_indented_one_line(scalar_text(v), false);
        assert(margin(false) + scalar_text(v) =~= scalar_text(v));
    }
}

/// Indenting an item laid out at depth `k` lays it out at depth `k + 1`.
pub proof fn lemma_shift_item(v: Model, i: int, k: nat)
    requires
        v is Array || v is Object,
        well_formed(v),
        0 <= i < count_of(v),
    ensures
        indented(item_at_depth(v, i, k), false) == item_at_depth(v, i, k + 1),
        ends_open(item_at_depth(v, i, k)),
    decreases v, 0int, 0int,
{
    let head = item_head(v, i);
    let child = child_of(v, i);
    let text = layout_text(child, Layout::Pretty, k);
    lemma_child_well_formed(v, i);
    lemma_shift(child, k);
    lemma_item_head_one_line(v, i);
    lemma_indented_concat(head, text, false);
    lemma_indented_one_line(head, false);
    assert(margin(false) + head =~= head);
    assert((head + text).last() == text.last());
}

/// Indenting the items of a list joined at depth `k` joins them at depth
/// `k + 1`.
pub proof fn lemma_shift_joined(v: Model, count: int, k: nat)
    requires
        v is Array || v is Object,
        well_formed(v),
        1 <= count <= count_of(v),
    ensures
        indented(joined(v, count, k), false) == joined(v, count, k + 1),
        ends_open(joined(v, count, k)),
    decreases v, 0int, count,
{
    lemma_shift_item(v, count - 1, k);
    if count > 1 {
        lemma_shift_joined(v, count - 1, k);
        let front = joined(v, count - 1, k);
        let it = item_at_depth(v, count - 1, k);
        let more = seq![COMMA] + (line_gap(k) + it);
        assert(joined(v, count, k) =~= front + more);
        lemma_indented_concat(front, more, false);
        lemma_indented_concat(seq![COMMA], line_gap(k) + it, false);
        assert(one_line(seq![COMMA]));
        lemma_indented_one_line(seq![COMMA], false);
        assert(margin(false) + seq![COMMA] =~= seq![COMMA]);
        lemma_indent_gap(k, it);
        assert(joined(v, count, k + 1) =~= joined(v, count - 1, k + 1) + (seq![COMMA] + (
        line_gap(k + 1) + item_at_depth(v, count - 1, k + 1))));
        assert(joined(v, count, k).last() == it.last());
    }
}

/// The items of a pretty list, before they are indented, are joined at
/// depth zero.
pub proof fn lemma_pretty_joined(v: Model, count: int)
    requires
        v is Array || v is Object,
        well_formed(v),
        0 <= count <= count_of(v),
    ensures
        v is Array ==> pretty_items(v->Array_0, count) == joined(v, count, 0),
        v is Object ==> pretty_members(v->Object_0, count) == joined(v, count, 0),
    decreases v, 0int, count,
{
    if count >= 1 {
        lemma_child_well_formed(v, count - 1);
        lemma_pretty_layout(child_of(v, count - 1));
        let child_text = layout_text(child_of(v, count - 1), Layout::Pretty, 0);
        if v is Object {
            assert(member_text(v->Object_0[count - 1].0, child_text) =~= item_at_depth(
                v,
                count - 1,
                0,
            ));
        } else {
            assert(child_text =~= item_at_depth(v, count - 1, 0));
        }
        if count > 1 {
            lemma_pretty_joined(v, count - 1);
            assert(pretty_separator() =~= seq![COMMA] + line_gap(0));
        }
    }
}

/// The pretty form of a well-formed value is its pretty layout at depth
/// zero.
pub proof fn lemma_pretty_layout(v: Model)
    requires
        well_formed(v),
    ensures
        pretty_text(v) == layout_text(v, Layout::Pretty, 0),
    decreases v, 1int, 0int,
{
    if v is Array || v is Object {
        let n = count_of(v);
        lemma_pretty_joined(v, n);
        let flat = joined(v, n, 0);
        assert(line_gap(0) =~= seq![NEWLINE]);
        if n == 0 {
            assert(prefix_text(v, n, Layout::Pretty, 0) =~= Seq::<u8>::empty());
            assert(indented(flat, true) =~= Seq::<u8>::empty());
            assert(pretty_text(v) =~= layout_text(v, Layout::Pretty, 0));
        } else {
            lemma_shift_joined(v, n, 0);
            lemma_indented_head(flat);
            lemma_prefix_joined(v, n, 0);
            assert(line_gap(1) =~= seq![NEWLINE] + indent_unit());
            assert(pretty_text(v) =~= layout_text(v, Layout::Pretty, 0));
        }
    }
}

/// The items of a compact list are those of its compact layout at any
/// depth.
pub proof fn lemma_compact_prefix(v: Model, count: int, depth: nat)
    requires
        v is Array || v is Object,
        0 <= count <= count_of(v),
    ensures
        v is Array ==> crate::render::compact_items(v->Array_0, count) == prefix_text(
            v,
            count,
            Layout::Compact,
            depth,
        ),
        v is Object ==> crate::render::compact_members(v->Object_0, count) == prefix_text(
            v,
            count,
            Layout::Compact,
            depth,
        ),
    decreases v, 0int, count,
{
    if count >= 1 {
        lemma_compact_layout(child_of(v, count - 1), depth + 1);
        if count > 1 {
            lemma_compact_prefix(v, count - 1, depth);
            let front = prefix_text(v, count - 1, Layout::Compact, depth);
            let child_text = layout_text(child_of(v, count - 1), Layout::Compact, depth + 1);
            assert(crate::render::compact_separator() =~= seq![COMMA] + item_gap(
                Layout::Compact,
                depth,
            ));
            if v is Array {
                assert(front + crate::render::compact_separator() + child_text =~= front + seq![
                    COMMA,
                ] + item_gap(Layout::Compact, depth) + child_text);
            } else {
                let m = member_text(v->Object_0[count - 1].0, child_text);
                assert(front + crate::render::compact_separator() + m =~= front + seq![COMMA]
                    + item_gap(Layout::Compact, depth) + m);
            }
        }
    }
}

/// The compact form of a value is its compact layout at any depth.
pub proof fn lemma_compact_layout(v: Model, depth: nat)
    ensures
        crate::render::compact_text(v) == layout_text(v, Layout::Compact, depth),
    decreases v, 1int, 0int,
{
    if v is Array || v is Object {
        let n = count_of(v);
        lemma_compact_prefix(v, n, depth);
        assert(crate::render::compact_text(v) =~= layout_text(v, Layout::Compact, depth));
    }
}

} // verus!
