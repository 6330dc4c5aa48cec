//! The laws of the library: unescaping undoes escaping, and parsing undoes
//! rendering.

use crate::error::ParseError;
use crate::escape::{escape_byte, escaped, hex_digit, needs_escape};
use crate::grammar::document;
use crate::model::{
    items_order, key_lt, keys_order, lemma_key_lt_irreflexive, lemma_key_lt_total,
    lemma_key_lt_transitive, members_order, rank, value_order, well_formed, KeyOrder, Model,
};
use crate::pretty::{lemma_compact_layout, lemma_pretty_layout};
use crate::render::{compact_text, pretty_text};
use crate::roundtrip::{lemma_document_read_back, Layout};
use crate::text::{BACKSLASH, QUOTE};
use crate::unescape::{
    decoded, escape_scalar, escape_seq, escape_value, hex4_at, hex4_value, hex_value, is_hex,
    scan_text, unescaped,
};
use vstd::prelude::*;
use vstd::utf8::*;

verus! {

/// A scalar value below 128 is encoded as the byte of that value.
proof fn lemma_encode_scalar_ascii(b: u8)
    requires
        b < 0x80,
    ensures
        encode_scalar(b as u32) == seq![b],
{
    let v = b as u32;
    assert((v & 0x7F) as u8 == b) by (bit_vector)
        requires
            v == b as u32,
            b < 0x80,
    ;
}

/// Where the escape of one byte `b` stands in `s` at `at`, the walk over
/// string content passes over it, and it stands for `b`.
pub proof fn lemma_escape_byte_read_back(s: Seq<u8>, at: int, b: u8, end: int, quoted: bool)
    requires
        0 <= at,
        at + escape_byte(b).len() <= end <= s.len(),
        s.subrange(at, at + escape_byte(b).len()) == escape_byte(b),
    ensures
        scan_text(s, at, quoted) == scan_text(s, at + escape_byte(b).len(), quoted),
        decoded(s, at, end) == seq![b] + decoded(s, at + escape_byte(b).len(), end),
{
    let e = escape_byte(b);
    let w = s.subrange(at, at + e.len());
    assert(w[0] == s[at]);
    if needs_escape(b) {
        assert(w[1] == s[at + 1]);
        if b == QUOTE || b == BACKSLASH || b == 0x08 || b == 0x09 || b == 0x0A || b == 0x0C || b
            == 0x0D {
            assert(escape_seq(s, at + 1) == Ok::<int, ParseError>(at + 2));
            assert(escape_value(s, at + 1) =~= seq![b]);
        } else {
            assert(w[2] == s[at + 2]);
            assert(w[3] == s[at + 3]);
            assert(w[4] == s[at + 4]);
            assert(w[5] == s[at + 5]);
            let hi = hex_digit(b as int / 16);
            let lo = hex_digit(b as int % 16);
            assert(is_hex(hi) && hex_value(hi) == b as int / 16);
            assert(is_hex(lo) && hex_value(lo) == b as int % 16);
            assert(hex4_at(s, at + 2));
            assert(hex4_value(s, at + 2) == b as int);
            assert(escape_seq(s, at + 1) == Ok::<int, ParseError>(at + 6));
            assert(escape_scalar(s, at + 2) == b as int);
            lemma_encode_scalar_ascii(b);
            assert(escape_value(s, at + 1) =~= seq![b]);
        }
    }
}

/// Where the escaped form of `x` stands in `s` at `at`, the walk over string
/// content passes over it, and it stands for `x`.
pub proof fn lemma_escaped_read_back(s: Seq<u8>, at: int, x: Seq<u8>, end: int, quoted: bool)
    requires
        0 <= at,
        at + escaped(x).len() <= end <= s.len(),
        s.subrange(at, at + escaped(x).len()) == escaped(x),
    ensures
        scan_text(s, at, quoted) == scan_text(s, at + escaped(x).len(), quoted),
        decoded(s, at, end) == x + decoded(s, at + escaped(x).len(), end),
    decreases x.len(),
{
    if x.len() == 0 {
        assert(Seq::<u8>::empty() + decoded(s, at, end) =~= decoded(s, at, end));
    } else {
        let b = x[0];
        let rest = x.drop_first();
        let e = escape_byte(b);
        let whole = escaped(x);
        assert(whole =~= e + escaped(rest));
        assert(s.subrange(at, at + e.len()) =~= whole.subrange(0, e.len() as int));
        assert(whole.subrange(0, e.len() as int) =~= e);
        assert(s.subrange(at + e.len(), at + whole.len()) =~= whole.subrange(
            e.len() as int,
            whole.len() as int,
        ));
        assert(whole.subrange(e.len() as int, whole.len() as int) =~= escaped(rest));
        lemma_escape_byte_read_back(s, at, b, end, quoted);
        lemma_escaped_read_back(s, at + e.len(), rest, end, quoted);
        assert(seq![b] + (rest + decoded(s, at + whole.len(), end)) =~= x + decoded(
            s,
            at + whole.len(),
            end,
        ));
    }
}

/// Unescaping undoes escaping: for every text `x`, the escaped form of `x`
/// is accepted and stands for `x`.
pub proof fn lemma_unescape_escape(x: Seq<u8>)
    ensures
        unescaped(escaped(x)) == Ok::<Seq<u8>, ParseError>(x),
{
    let s = escaped(x);
    let n = s.len() as int;
    assert(s.subrange(0, n) =~= s);
    lemma_escaped_read_back(s, 0, x, n, false);
    assert(decoded(s, n, n) =~= Seq::<u8>::empty());
    assert(x + Seq::<u8>::empty() =~= x);
}

/// Parsing undoes compact rendering: the compact form of every well-formed
/// value is a document that is read as that value.
pub proof fn lemma_parse_compact(v: Model)
    requires
        well_formed(v),
    ensures
        document(compact_text(v)) == Ok::<Model, ParseError>(v),
{
    lemma_compact_layout(v, 0);
    lemma_document_read_back(v, Layout::Compact);
}

/// Parsing undoes pretty rendering: the pretty form of every well-formed
/// value is a document that is read as that value.
pub proof fn lemma_parse_pretty(v: Model)
    requires
        well_formed(v),
    ensures
        document(pretty_text(v)) == Ok::<Model, ParseError>(v),
{
    lemma_pretty_layout(v);
    lemma_document_read_back(v, Layout::Pretty);
}

/// The order seen from the other side.
pub open spec fn mirrored(order: KeyOrder) -> KeyOrder {
    match order {
        KeyOrder::Before => KeyOrder::After,
        KeyOrder::Same => KeyOrder::Same,
        KeyOrder::After => KeyOrder::Before,
    }
}

/// Two keys stand the same way to each other exactly if they are one key,
/// and each stands to the other as the other does not to it.
pub proof fn lemma_keys_order(a: Seq<u8>, b: Seq<u8>)
    ensures
        keys_order(a, b) is Same <==> a == b,
        keys_order(b, a) == mirrored(keys_order(a, b)),
{
    lemma_key_lt_irreflexive(a, 0);
    lemma_key_lt_irreflexive(b, 0);
    lemma_key_lt_total(a, b, 0);
    if key_lt(a, b) && key_lt(b, a) {
        lemma_key_lt_transitive(a, b, a, 0);
    }
}

/// The order of values agrees with their equality: two values stand the
/// same way to each other exactly if they are one value.
pub proof fn lemma_order_same(a: Model, b: Model)
    ensures
        value_order(a, b) is Same <==> a == b,
    decreases a, 1int, 0int,
{
    if rank(a) == rank(b) {
        match (a, b) {
            (Model::Float(x), Model::Float(y)) => {
                lemma_keys_order(x, y);
            },
            (Model::String(x), Model::String(y)) => {
                lemma_keys_order(x, y);
            },
            (Model::Array(x), Model::Array(y)) => {
                lemma_items_order_same(x, y, 0);
                if x.len() == y.len() && (forall|i: int| 0 <= i < x.len() ==> x[i] == y[i]) {
                    assert(x =~= y);
                }
            },
            (Model::Object(x), Model::Object(y)) => {
                lemma_members_order_same(x, y, 0);
                if x.len() == y.len() && (forall|i: int| 0 <= i < x.len() ==> x[i] == y[i]) {
                    assert(x =~= y);
                }
            },
            _ => {},
        }
    }
}

/// Two arrays that agree before `from` stand the same way to each other
/// exactly if they are as long as each other and agree from `from` on.
pub proof fn lemma_items_order_same(x: Seq<Model>, y: Seq<Model>, from: int)
    requires
        0 <= from,
    ensures
        items_order(x, y, from) is Same <==> (x.len() == y.len() && forall|i: int|
            from <= i < x.len() ==> x[i] == y[i]),
    decreases x, 0int, x.len() - from,
{
    if from < x.len() && from < y.len() {
        lemma_order_same(x[from], y[from]);
        lemma_items_order_same(x, y, from + 1);
    }
}

/// Two objects that agree before `from` stand the same way to each other
/// exactly if they have as many members as each other and agree from
/// `from` on.
pub proof fn lemma_members_order_same(
    x: Seq<(Seq<u8>, Model)>,
    y: Seq<(Seq<u8>, Model)>,
    from: int,
)
    requires
        0 <= from,
    ensures
        members_order(x, y, from) is Same <==> (x.len() == y.len() && forall|i: int|
            from <= i < x.len() ==> x[i] == y[i]),
    decreases x, 0int, x.len() - from,
{
    if from < x.len() && from < y.len() {
        lemma_keys_order(x[from].0, y[from].0);
        lemma_order_same(x[from].1, y[from].1);
        lemma_members_order_same(x, y, from + 1);
    }
}

/// The order of values is total: of two values each stands to the other as
/// the other does not to it.
pub proof fn lemma_order_mirror(a: Model, b: Model)
    ensures
        value_order(b, a) == mirrored(value_order(a, b)),
    decreases a, 1int, 0int,
{
    if rank(a) == rank(b) {
        match (a, b) {
            (Model::Float(x), Model::Float(y)) => {
                lemma_keys_order(x, y);
            },
            (Model::String(x), Model::String(y)) => {
                lemma_keys_order(x, y);
            },
            (Model::Array(x), Model::Array(y)) => {
                lemma_items_order_mirror(x, y, 0);
            },
            (Model::Object(x), Model::Object(y)) => {
                lemma_members_order_mirror(x, y, 0);
            },
            _ => {},
        }
    }
}

/// The order of arrays from item number `from` on, seen from both sides.
pub proof fn lemma_items_order_mirror(x: Seq<Model>, y: Seq<Model>, from: int)
    requires
        0 <= from,
    ensures
        items_order(y, x, from) == mirrored(items_order(x, y, from)),
    decreases x, 0int, x.len() - from,
{
    if from < x.len() && from < y.len() {
        lemma_order_mirror(x[from], y[from]);
        lemma_items_order_mirror(x, y, from + 1);
    }
}

/// The order of objects from member number `from` on, seen from both
/// sides.
pub proof fn lemma_members_order_mirror(
    x: Seq<(Seq<u8>, Model)>,
    y: Seq<(Seq<u8>, Model)>,
    from: int,
)
    requires
        0 <= from,
    ensures
        members_order(y, x, from) == mirrored(members_order(x, y, from)),
    decreases x, 0int, x.len() - from,
{
    if from < x.len() && from < y.len() {
        lemma_keys_order(x[from].0, y[from].0);
        lemma_order_mirror(x[from].1, y[from].1);
        lemma_members_order_mirror(x, y, from + 1);
    }
}

} // verus!
