//! The mathematical model of a JSON document.

use crate::number::{fits_i64, is_float_literal};
use vstd::prelude::*;

verus! {

/// A JSON value. Texts are sequences of UTF-8 bytes.
pub enum Model {
    /// `null`.
    Null,
    /// `true` or `false`.
    Bool(bool),
    /// A number written without fraction and exponent that fits in 64 bits.
    Int(int),
    /// Any other number, as the literal that writes it.
    Float(Seq<u8>),
    /// A string: its text, all escape sequences resolved.
    String(Seq<u8>),
    /// An array: its items in order.
    Array(Seq<Model>),
    /// An object: its members in the order of their keys, each key once.
    Object(Seq<(Seq<u8>, Model)>),
}

/// `a` and `b` agree before `from`; from there on `a` comes first in the
/// order of the dictionary, byte by byte.
pub open spec fn lt_from(a: Seq<u8>, b: Seq<u8>, from: int) -> bool
    decreases a.len() - from,
{
    if from < 0 || from >= b.len() {
        false
    } else if from >= a.len() {
        true
    } else if a[from] != b[from] {
        a[from] < b[from]
    } else {
        lt_from(a, b, from + 1)
    }
}

/// The order of keys: that of the dictionary, byte by byte, which is the
/// order of `str` in Rust.
pub open spec fn key_lt(a: Seq<u8>, b: Seq<u8>) -> bool {
    lt_from(a, b, 0)
}

/// How two keys, or two values, stand to each other.
pub enum KeyOrder {
    Before,
    Same,
    After,
}

/// How two keys stand to each other.
pub open spec fn keys_order(a: Seq<u8>, b: Seq<u8>) -> KeyOrder {
    if key_lt(a, b) {
        KeyOrder::Before
    } else if a == b {
        KeyOrder::Same
    } else {
        KeyOrder::After
    }
}

/// How two integers stand to each other.
pub open spec fn ints_order(a: int, b: int) -> KeyOrder {
    if a < b {
        KeyOrder::Before
    } else if a == b {
        KeyOrder::Same
    } else {
        KeyOrder::After
    }
}

/// The place of a value's kind among the kinds: `null` first, then
/// integers, other numbers, strings, truth values, objects, arrays.
pub open spec fn rank(v: Model) -> int {
    match v {
        Model::Null => 0,
        Model::Int(_) => 1,
        Model::Float(_) => 2,
        Model::String(_) => 3,
        Model::Bool(_) => 4,
        Model::Object(_) => 5,
        Model::Array(_) => 6,
    }
}

/// The order of values: by kind first; within a kind, integers by value,
/// literals and strings byte by byte, `false` before `true`, arrays item by
/// item and objects member by member (key, then value), a list that is the
/// beginning of another before it.
pub open spec fn value_order(a: Model, b: Model) -> KeyOrder
    decreases a, 0int,
{
    if rank(a) != rank(b) {
        ints_order(rank(a), rank(b))
    } else {
        match (a, b) {
            (Model::Int(x), Model::Int(y)) => ints_order(x, y),
            (Model::Float(x), Model::Float(y)) => keys_order(x, y),
            (Model::String(x), Model::String(y)) => keys_order(x, y),
            (Model::Bool(x), Model::Bool(y)) => ints_order(
                if x {
                    1
                } else {
                    0
                },
                if y {
                    1
                } else {
                    0
                },
            ),
            (Model::Array(x), Model::Array(y)) => items_order(x, y, 0),
            (Model::Object(x), Model::Object(y)) => members_order(x, y, 0),
            _ => KeyOrder::Same,
        }
    }
}

/// The order of two arrays that agree before item number `from`.
pub open spec fn items_order(a: Seq<Model>, b: Seq<Model>, from: int) -> KeyOrder
    decreases a, a.len() - from,
{
    if from < 0 || from >= a.len() || from >= b.len() {
        ints_order(a.len() as int, b.len() as int)
    } else {
        match value_order(a[from], b[from]) {
            KeyOrder::Same => items_order(a, b, from + 1),
            other => other,
        }
    }
}

/// The order of two objects that agree before member number `from`.
pub open spec fn members_order(
    a: Seq<(Seq<u8>, Model)>,
    b: Seq<(Seq<u8>, Model)>,
    from: int,
) -> KeyOrder
    decreases a, a.len() - from,
{
    if from < 0 || from >= a.len() || from >= b.len() {
        ints_order(a.len() as int, b.len() as int)
    } else {
        match keys_order(a[from].0, b[from].0) {
            KeyOrder::Same => match value_order(a[from].1, b[from].1) {
                KeyOrder::Same => members_order(a, b, from + 1),
                other => other,
            },
            other => other,
        }
    }
}

/// The keys of the members rise strictly, so that none occurs twice.
pub open spec fn keys_rise(members: Seq<(Seq<u8>, Model)>) -> bool {
    forall|i: int, j: int|
        0 <= i < j < members.len() ==> key_lt((#[trigger] members[i]).0, (#[trigger] members[j]).0)
}

/// The number of members at the front whose key comes before `key`.
pub open spec fn lower_bound(members: Seq<(Seq<u8>, Model)>, key: Seq<u8>) -> int
    decreases members.len(),
{
    if members.len() == 0 {
        0
    } else if key_lt(members[0].0, key) {
        1 + lower_bound(members.drop_first(), key)
    } else {
        0
    }
}

/// The members after `key` was given `value`: a member with that key is
/// replaced, else the new member takes its place in the order.
pub open spec fn with_member(
    members: Seq<(Seq<u8>, Model)>,
    key: Seq<u8>,
    value: Model,
) -> Seq<(Seq<u8>, Model)> {
    let at = lower_bound(members, key);
    if at < members.len() && members[at].0 == key {
        members.update(at, (key, value))
    } else {
        members.insert(at, (key, value))
    }
}

/// The members that a list of pairs makes, each pair given in turn: of two
/// pairs with one key the later one stays.
pub open spec fn members_of(pairs: Seq<(Seq<u8>, Model)>) -> Seq<(Seq<u8>, Model)>
    decreases pairs.len(),
{
    if pairs.len() == 0 {
        Seq::empty()
    } else {
        with_member(members_of(pairs.drop_last()), pairs.last().0, pairs.last().1)
    }
}

/// What holds of every value that a program holds or a parse returns: an
/// `Int` fits in 64 bits, a `Float` is a number literal that is not read as
/// an integer, and the keys of an object rise strictly.
pub open spec fn well_formed(v: Model) -> bool
    decreases v,
{
    match v {
        Model::Int(i) => fits_i64(i),
        Model::Float(text) => is_float_literal(text),
        Model::Array(items) => forall|i: int|
            0 <= i < items.len() ==> well_formed(#[trigger] items[i]),
        Model::Object(members) => keys_rise(members) && forall|i: int|
            0 <= i < members.len() ==> well_formed((#[trigger] members[i]).1),
        _ => true,
    }
}

/// No key comes before itself.
pub proof fn lemma_key_lt_irreflexive(a: Seq<u8>, from: int)
    requires
        0 <= from,
    ensures
        !lt_from(a, a, from),
    decreases a.len() - from,
{
    if from < a.len() {
        lemma_key_lt_irreflexive(a, from + 1);
    }
}

/// The order of keys is transitive.
pub proof fn lemma_key_lt_transitive(a: Seq<u8>, b: Seq<u8>, c: Seq<u8>, from: int)
    requires
        0 <= from,
        lt_from(a, b, from),
        lt_from(b, c, from),
    ensures
        lt_from(a, c, from),
    decreases a.len() - from,
{
    if from < a.len() && a[from] == b[from] && b[from] == c[from] {
        lemma_key_lt_transitive(a, b, c, from + 1);
    }
}

/// Of two keys that agree before `from`, one comes before the other, or
/// they are the same key.
pub proof fn lemma_key_lt_total(a: Seq<u8>, b: Seq<u8>, from: int)
    requires
        0 <= from <= a.len(),
        from <= b.len(),
        forall|i: int| 0 <= i < from ==> a[i] == b[i],
    ensures
        lt_from(a, b, from) || lt_from(b, a, from) || a == b,
    decreases a.len() - from,
{
    if from == a.len() || from == b.len() {
        if from == a.len() && from == b.len() {
            assert(a =~= b);
        }
    } else if a[from] == b[from] {
        lemma_key_lt_total(a, b, from + 1);
    }
}

/// Where keys agree before `from`, comparing them from `from` is comparing
/// them.
pub proof fn lemma_key_lt_skip(a: Seq<u8>, b: Seq<u8>, from: int)
    requires
        0 <= from <= a.len(),
        from <= b.len(),
        forall|i: int| 0 <= i < from ==> a[i] == b[i],
    ensures
        lt_from(a, b, from) == key_lt(a, b),
    decreases from,
{
    if from > 0 {
        lemma_key_lt_skip(a, b, from - 1);
    }
}

/// What `lower_bound` finds: every member before it has a smaller key, the
/// member at it has not.
pub proof fn lemma_lower_bound(members: Seq<(Seq<u8>, Model)>, key: Seq<u8>)
    ensures
        0 <= lower_bound(members, key) <= members.len(),
        forall|j: int| 0 <= j < lower_bound(members, key) ==> key_lt((#[trigger] members[j]).0, key),
        lower_bound(members, key) < members.len() ==> !key_lt(
            members[lower_bound(members, key)].0,
            key,
        ),
    decreases members.len(),
{
    if members.len() > 0 && key_lt(members[0].0, key) {
        let rest = members.drop_first();
        lemma_lower_bound(rest, key);
        assert forall|j: int| 0 <= j < lower_bound(members, key) implies key_lt(
            (#[trigger] members[j]).0,
            key,
        ) by {
            if j > 0 {
                assert(members[j] == rest[j - 1]);
            }
        }
        if lower_bound(members, key) < members.len() {
            assert(members[lower_bound(members, key)] == rest[lower_bound(rest, key)]);
        }
    }
}

/// A position before which all keys are smaller and at which the key is
/// not smaller is the lower bound.
pub proof fn lemma_lower_bound_is(members: Seq<(Seq<u8>, Model)>, key: Seq<u8>, at: int)
    requires
        0 <= at <= members.len(),
        forall|j: int| 0 <= j < at ==> key_lt((#[trigger] members[j]).0, key),
        at < members.len() ==> !key_lt(members[at].0, key),
    ensures
        lower_bound(members, key) == at,
    decreases members.len(),
{
    if at > 0 {
        let rest = members.drop_first();
        assert(key_lt(members[0].0, key));
        assert forall|j: int| 0 <= j < at - 1 implies key_lt((#[trigger] rest[j]).0, key) by {
            assert(rest[j] == members[j + 1]);
        }
        if at - 1 < rest.len() {
            assert(rest[at - 1] == members[at]);
        }
        lemma_lower_bound_is(rest, key, at - 1);
    }
}

/// Giving a member to an object whose keys rise leaves them rising.
pub proof fn lemma_with_member_rises(members: Seq<(Seq<u8>, Model)>, key: Seq<u8>, value: Model)
    requires
        keys_rise(members),
    ensures
        keys_rise(with_member(members, key, value)),
{
    lemma_lower_bound(members, key);
    let at = lower_bound(members, key);
    let after = with_member(members, key, value);
    assert forall|i: int, j: int| 0 <= i < j < after.len() implies key_lt(
        (#[trigger] after[i]).0,
        (#[trigger] after[j]).0,
    ) by {
        if at < members.len() && members[at].0 == key {
            assert(after[i].0 == members[i].0);
            assert(after[j].0 == members[j].0);
        } else {
            if at < members.len() {
                lemma_key_lt_total(members[at].0, key, 0);
            }
            if j < at {
                assert(after[i] == members[i] && after[j] == members[j]);
            } else if j == at {
                assert(after[i] == members[i]);
            } else if i < at {
                assert(after[i] == members[i] && after[j] == members[j - 1]);
            } else if i == at {
                assert(after[j] == members[j - 1]);
                if j - 1 > at {
                    lemma_key_lt_transitive(key, members[at].0, members[j - 1].0, 0);
                }
            } else {
                assert(after[i] == members[i - 1] && after[j] == members[j - 1]);
            }
        }
    }
}

/// Giving an object a member whose key is greater than all of its keys puts
/// the member at its end.
pub proof fn lemma_with_member_last(members: Seq<(Seq<u8>, Model)>, key: Seq<u8>, value: Model)
    requires
        forall|j: int| 0 <= j < members.len() ==> key_lt((#[trigger] members[j]).0, key),
    ensures
        with_member(members, key, value) == members.push((key, value)),
{
    lemma_lower_bound_is(members, key, members.len() as int);
    assert(members.insert(members.len() as int, (key, value)) =~= members.push((key, value)));
}

/// Members whose keys rise are what they make when given one by one.
pub proof fn lemma_members_of_risen(members: Seq<(Seq<u8>, Model)>)
    requires
        keys_rise(members),
    ensures
        members_of(members) == members,
    decreases members.len(),
{
    if members.len() > 0 {
        let front = members.drop_last();
        assert forall|i: int, j: int| 0 <= i < j < front.len() implies key_lt(
            (#[trigger] front[i]).0,
            (#[trigger] front[j]).0,
        ) by {
            assert(front[i] == members[i] && front[j] == members[j]);
        }
        lemma_members_of_risen(front);
        assert forall|j: int| 0 <= j < front.len() implies key_lt(
            (#[trigger] front[j]).0,
            members.last().0,
        ) by {
            assert(front[j] == members[j]);
            assert(members.last() == members[members.len() - 1]);
        }
        lemma_with_member_last(front, members.last().0, members.last().1);
        assert(front.push((members.last().0, members.last().1)) =~= members);
    }
}

/// The members that a list of pairs makes have rising keys.
pub proof fn lemma_members_of_rise(pairs: Seq<(Seq<u8>, Model)>)
    ensures
        keys_rise(members_of(pairs)),
    decreases pairs.len(),
{
    if pairs.len() > 0 {
        lemma_members_of_rise(pairs.drop_last());
        lemma_with_member_rises(members_of(pairs.drop_last()), pairs.last().0, pairs.last().1);
    }
}

/// Giving an object of well-formed values a well-formed value leaves its
/// values well-formed.
pub proof fn lemma_with_member_well_formed(
    members: Seq<(Seq<u8>, Model)>,
    key: Seq<u8>,
    value: Model,
)
    requires
        forall|i: int| 0 <= i < members.len() ==> well_formed((#[trigger] members[i]).1),
        well_formed(value),
    ensures
        forall|i: int|
            0 <= i < with_member(members, key, value).len() ==> well_formed(
                (#[trigger] with_member(members, key, value)[i]).1,
            ),
{
    lemma_lower_bound(members, key);
    let at = lower_bound(members, key);
    let after = with_member(members, key, value);
    assert forall|i: int| 0 <= i < after.len() implies well_formed((#[trigger] after[i]).1) by {
        if at < members.len() && members[at].0 == key {
            if i != at {
                assert(after[i] == members[i]);
            }
        } else {
            if i < at {
                assert(after[i] == members[i]);
            } else if i > at {
                assert(after[i] == members[i - 1]);
            }
        }
    }
}

} // verus!
