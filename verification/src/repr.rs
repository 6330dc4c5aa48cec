//! The JSON value as a program holds it.

use crate::codec::TextCodec;
use crate::model::{
    key_lt, keys_rise, lemma_key_lt_skip, lemma_key_lt_total, lemma_lower_bound_is,
    ints_order, items_order, keys_order, lemma_with_member_rises, members_order, members_of,
    rank, value_order, well_formed, with_member, KeyOrder, Model,
};
use crate::number::{is_float_literal, lemma_digits_end, push_int, read_int, scan_number};
use crate::pad::{ends_line, indented, lemma_indented_concat, PadAdapter};
use crate::render::{
    compact_items, compact_members, compact_text, false_text, member_text, null_text, pretty_items,
    pretty_members, pretty_separator, pretty_text, quoted, true_text,
};
use crate::text::{
    push_ascii, push_text, CLOSE_BRACE, CLOSE_BRACKET, COLON, COMMA, NEWLINE, OPEN_BRACE,
    OPEN_BRACKET, QUOTE, SPACE,
};
use std::borrow::Cow;
use vstd::prelude::*;
use vstd::string::*;
use vstd::utf8::*;

verus! {

/// The text of a copy-on-write string, whichever way it is held.
pub fn cow_str<'b, 'a>(c: &'b Cow<'a, str>) -> (s: &'b str)
    ensures
        s@ == c@,
{
    match c {
        Cow::Borrowed(b) => *b,
        Cow::Owned(o) => o.as_str(),
    }
}

/// A number literal that is not read as an integer: it has a fraction or an
/// exponent, or its value does not fit in an `i64`. It is kept as written;
/// its value is the double that is nearest to what it writes. Two literals
/// are equal when they are written the same way, and are ordered byte by
/// byte.
#[derive(Debug)]
pub struct FloatLiteral<'a> {
    text: Cow<'a, str>,
}

/// The members of an object, in the order of their keys, each key once.
#[derive(Debug)]
pub struct JsonObject<'a> {
    entries: Vec<(Cow<'a, str>, Json<'a>)>,
}

/// A JSON value; `None` is `null`.
#[derive(Debug)]
pub struct Json<'a>(pub Option<JsonValue<'a>>);

/// A JSON value that is not `null`.
#[derive(Debug)]
pub enum JsonValue<'a> {
    /// A number written without fraction and exponent that fits in an `i64`.
    Int(i64),
    /// Any other number.
    Float(FloatLiteral<'a>),
    /// A JSON string.
    String(Cow<'a, str>),
    /// `true` or `false`.
    Bool(bool),
    /// A JSON object.
    Object(JsonObject<'a>),
    /// A JSON array.
    Array(Vec<Json<'a>>),
}

/// Compares two keys byte by byte.
pub fn key_order(a: &str, b: &str) -> (r: KeyOrder)
    ensures
        r is Before <==> key_lt(a.spec_bytes(), b.spec_bytes()),
        r is Same <==> a.spec_bytes() == b.spec_bytes(),
        r is After <==> key_lt(b.spec_bytes(), a.spec_bytes()),
        r == keys_order(a.spec_bytes(), b.spec_bytes()),
{
    let x = a.as_bytes();
    let y = b.as_bytes();
    let n = x.len();
    let m = y.len();
    let mut i: usize = 0;
    while i < n && i < m && x[i] == y[i]
        invariant
            n == x@.len(),
            m == y@.len(),
            i <= n,
            i <= m,
            forall|k: int| 0 <= k < i ==> x@[k] == y@[k],
        decreases n - i,
    {
        i = i + 1;
    }
    proof {
        lemma_key_lt_skip(x@, y@, i as int);
        lemma_key_lt_skip(y@, x@, i as int);
        lemma_key_lt_total(x@, y@, i as int);
        crate::model::lemma_key_lt_irreflexive(x@, 0);
        if i == n && i == m {
            assert(x@ =~= y@);
        }
    }
    if i == n && i == m {
        KeyOrder::Same
    } else if i == n {
        KeyOrder::Before
    } else if i == m {
        KeyOrder::After
    } else if x[i] < y[i] {
        KeyOrder::Before
    } else {
        KeyOrder::After
    }
}

impl<'a> FloatLiteral<'a> {
    /// The literal, as bytes.
    pub closed spec fn view(&self) -> Seq<u8> {
        encode_utf8(self.text@)
    }

    /// The literal is, as a whole, a number literal that is not read as an
    /// integer.
    pub open spec fn wf(&self) -> bool {
        is_float_literal(self@)
    }

    /// The literal `text`, if it is a number literal that is not read as an
    /// integer.
    pub fn new(text: Cow<'a, str>) -> (r: Option<Self>)
        ensures
            r is Some <==> is_float_literal(encode_utf8(text@)),
            r matches Some(lit) ==> lit@ == encode_utf8(text@),
    {
        let s = cow_str(&text);
        let ghost all = s.spec_bytes();
        match scan_number(s, 0) {
            None => None,
            Some((int_end, end)) => {
                if end != s.as_bytes().len() {
                    None
                } else if int_end == end {
                    proof {
                        if all[0] == crate::number::MINUS {
                            lemma_digits_end(all, 1);
                        } else {
                            lemma_digits_end(all, 0);
                        }
                    }
                    match read_int(s, 0, end) {
                        Some(_) => None,
                        None => Some(FloatLiteral { text }),
                    }
                } else {
                    Some(FloatLiteral { text })
                }
            },
        }
    }

    /// The literal `text`, which is known to be one.
    pub(crate) fn from_checked(text: Cow<'a, str>) -> (lit: Self)
        requires
            is_float_literal(encode_utf8(text@)),
        ensures
            lit@ == encode_utf8(text@),
            lit.wf(),
    {
        FloatLiteral { text }
    }

    /// Gives up the literal for its text.
    pub fn into_text(self) -> (text: Cow<'a, str>)
        ensures
            encode_utf8(text@) == self@,
    {
        self.text
    }

    /// The literal as text.
    pub fn as_str(&self) -> (s: &str)
        ensures
            s.spec_bytes() == self@,
    {
        cow_str(&self.text)
    }
}

impl<'a> JsonObject<'a> {
    /// The members: key and value, in the order of the keys.
    pub closed spec fn members(&self) -> Seq<(Seq<u8>, Model)>
        decreases self,
    {
        Seq::new(
            self.entries@.len(),
            |i: int|
                if 0 <= i < self.entries@.len() {
                    (encode_utf8(self.entries@[i].0@), self.entries@[i].1.view())
                } else {
                    (Seq::empty(), Model::Null)
                },
        )
    }

    /// The keys rise strictly.
    pub open spec fn wf(&self) -> bool {
        keys_rise(self.members())
    }

    /// An object without members.
    pub fn new() -> (o: Self)
        ensures
            o.members() == Seq::<(Seq<u8>, Model)>::empty(),
            o.wf(),
    {
        let o = JsonObject { entries: Vec::new() };
        proof {
            assert(o.members() =~= Seq::<(Seq<u8>, Model)>::empty());
        }
        o
    }

    /// The number of members.
    pub fn len(&self) -> (n: usize)
        ensures
            n == self.members().len(),
    {
        self.entries.len()
    }

    /// The key of member number `i`.
    pub fn key(&self, i: usize) -> (k: &str)
        requires
            i < self.members().len(),
        ensures
            k.spec_bytes() == self.members()[i as int].0,
    {
        cow_str(&self.entries[i].0)
    }

    /// The value of member number `i`.
    pub fn value(&self, i: usize) -> (v: &Json<'a>)
        requires
            i < self.members().len(),
        ensures
            v@ == self.members()[i as int].1,
    {
        &self.entries[i].1
    }

    /// Gives up the object for its members, in the order of their keys.
    pub fn into_entries(self) -> (entries: Vec<(Cow<'a, str>, Json<'a>)>)
        ensures
            pairs_model(entries@) == self.members(),
    {
        proof {
            assert(pairs_model(self.entries@) =~= self.members());
        }
        self.entries
    }

    /// Gives the object a member: the value of a member with that key is
    /// replaced, else the member takes its place in the order of the keys.
    pub fn insert(&mut self, key: Cow<'a, str>, value: Json<'a>)
        requires
            old(self).wf(),
        ensures
            final(self).members() == with_member(
                old(self).members(),
                encode_utf8(key@),
                value@,
            ),
            final(self).wf(),
    {
        let ghost before = self.members();
        let ghost k = encode_utf8(key@);
        let n = self.entries.len();
        let mut at: usize = 0;
        let mut same = false;
        if n > 0 {
            // Keys mostly come in rising order: then the new member goes last.
            match key_order(cow_str(&self.entries[n - 1].0), cow_str(&key)) {
                KeyOrder::Before => {
                    proof {
                        assert forall|j: int| 0 <= j < n implies key_lt(
                            (#[trigger] before[j]).0,
                            k,
                        ) by {
                            if j < n - 1 {
                                crate::model::lemma_key_lt_transitive(
                                    before[j].0,
                                    before[n - 1].0,
                                    k,
                                    0,
                                );
                            }
                        }
                    }
                    at = n;
                },
                _ => {},
            }
        }
        while at < n
            invariant_except_break
                !same,
            invariant
                n == self.entries@.len(),
                before == self.members(),
                k == encode_utf8(key@),
                at <= n,
                forall|j: int| 0 <= j < at ==> key_lt((#[trigger] before[j]).0, k),
            ensures
                at <= n,
                forall|j: int| 0 <= j < at ==> key_lt((#[trigger] before[j]).0, k),
                at < n ==> !key_lt(before[at as int].0, k),
                same <==> at < n && before[at as int].0 == k,
            decreases n - at,
        {
            match key_order(cow_str(&self.entries[at].0), cow_str(&key)) {
                KeyOrder::Before => {
                    at = at + 1;
                },
                KeyOrder::Same => {
                    same = true;
                    proof {
                        crate::model::lemma_key_lt_irreflexive(k, 0);
                    }
                    break ;
                },
                KeyOrder::After => {
                    proof {
                        crate::model::lemma_key_lt_irreflexive(k, 0);
                        if key_lt(before[at as int].0, k) {
                            crate::model::lemma_key_lt_transitive(k, before[at as int].0, k, 0);
                        }
                    }
                    break ;
                },
            }
        }
        proof {
            lemma_lower_bound_is(before, k, at as int);
            lemma_with_member_rises(before, k, value@);
        }
        if same {
            self.entries.set(at, (key, value));
            proof {
                assert(self.members() =~= before.update(at as int, (k, value@)));
            }
        } else {
            self.entries.insert(at, (key, value));
            proof {
                assert(self.members() =~= before.insert(at as int, (k, value@)));
            }
        }
    }
}

impl<'a> Json<'a> {
    /// The value that this stands for.
    pub open spec fn view(&self) -> Model
        decreases self,
    {
        match self.0 {
            None => Model::Null,
            Some(v) => v.view(),
        }
    }

    /// Every number in it is in range and every object has rising keys.
    pub open spec fn wf(&self) -> bool {
        well_formed(self@)
    }
}

impl<'a> JsonValue<'a> {
    /// The value that this stands for.
    pub open spec fn view(&self) -> Model
        decreases self,
    {
        match self {
            JsonValue::Int(v) => Model::Int(*v as int),
            JsonValue::Float(lit) => Model::Float(lit@),
            JsonValue::String(s) => Model::String(encode_utf8(s@)),
            JsonValue::Bool(b) => Model::Bool(*b),
            JsonValue::Object(o) => Model::Object(o.members()),
            JsonValue::Array(items) => Model::Array(
                Seq::new(
                    items@.len(),
                    |i: int|
                        if 0 <= i < items@.len() {
                            items@[i].view()
                        } else {
                            Model::Null
                        },
                ),
            ),
        }
    }

    /// Every number in it is in range and every object has rising keys.
    pub open spec fn wf(&self) -> bool {
        well_formed(self@)
    }
}

/// A copy of a text, held the way the text is held.
pub fn cow_copy<'a>(c: &Cow<'a, str>) -> (r: Cow<'a, str>)
    ensures
        r@ == c@,
        r is Borrowed <==> c is Borrowed,
{
    match c {
        Cow::Borrowed(b) => Cow::Borrowed(*b),
        Cow::Owned(o) => Cow::Owned(o.clone()),
    }
}

/// Tells whether two texts are the same text.
pub fn same_text(a: &str, b: &str) -> (r: bool)
    ensures
        r == (a.spec_bytes() == b.spec_bytes()),
{
    match key_order(a, b) {
        KeyOrder::Same => true,
        _ => false,
    }
}

impl<'a> FloatLiteral<'a> {
    /// A copy of the literal.
    pub fn duplicate(&self) -> (r: Self)
        ensures
            r@ == self@,
    {
        FloatLiteral { text: cow_copy(&self.text) }
    }

    /// Tells whether two literals are written the same way.
    pub fn same(&self, other: &FloatLiteral<'_>) -> (r: bool)
        ensures
            r == (self@ == other@),
    {
        same_text(cow_str(&self.text), cow_str(&other.text))
    }
}

impl<'a> JsonObject<'a> {
    /// A copy of the object.
    pub fn duplicate(&self) -> (r: Self)
        ensures
            r.members() == self.members(),
        decreases self,
    {
        let n = self.entries.len();
        let mut entries: Vec<(Cow<'a, str>, Json<'a>)> = Vec::new();
        let mut i: usize = 0;
        while i < n
            invariant
                n == self.entries@.len(),
                i <= n,
                entries@.len() == i,
                forall|j: int|
                    0 <= j < i ==> (#[trigger] entries@[j]).0@ == self.entries@[j].0@
                        && entries@[j].1@ == self.entries@[j].1@,
            decreases n - i,
        {
            proof {
                assert(decreases_to!(self => self.entries));
                assert(decreases_to!(self.entries@[i as int] => self.entries@[i as int].1));
            }
            let key = cow_copy(&self.entries[i].0);
            let value = self.entries[i].1.duplicate();
            entries.push((key, value));
            i = i + 1;
        }
        let r = JsonObject { entries };
        proof {
            assert(r.members() =~= self.members());
        }
        r
    }

    /// Tells whether two objects have the same members.
    pub fn same(&self, other: &JsonObject<'_>) -> (r: bool)
        ensures
            r == (self.members() == other.members()),
        decreases self,
    {
        let n = self.entries.len();
        if other.entries.len() != n {
            proof {
                assert(self.members().len() != other.members().len());
            }
            return false;
        }
        let mut i: usize = 0;
        while i < n
            invariant
                n == self.entries@.len(),
                n == other.entries@.len(),
                i <= n,
                forall|j: int| 0 <= j < i ==> self.members()[j] == other.members()[j],
            decreases n - i,
        {
            proof {
                assert(decreases_to!(self => self.entries));
                assert(decreases_to!(self.entries@[i as int] => self.entries@[i as int].1));
            }
            let keys = same_text(cow_str(&self.entries[i].0), cow_str(&other.entries[i].0));
            if !keys || !self.entries[i].1.same(&other.entries[i].1) {
                proof {
                    assert(self.members()[i as int] != other.members()[i as int]);
                }
                return false;
            }
            i = i + 1;
        }
        proof {
            assert(self.members() =~= other.members());
        }
        true
    }
}

impl<'a> Json<'a> {
    /// A copy of the value.
    pub fn duplicate(&self) -> (r: Self)
        ensures
            r@ == self@,
        decreases self,
    {
        match &self.0 {
            None => Json(None),
            Some(v) => Json(Some(v.duplicate())),
        }
    }

    /// Tells whether two values are the same value: the same kind of value
    /// with the same content, arrays item by item, objects member by member.
    pub fn same(&self, other: &Json<'_>) -> (r: bool)
        ensures
            r == (self@ == other@),
        decreases self,
    {
        match (&self.0, &other.0) {
            (None, None) => true,
            (Some(a), Some(b)) => a.same(b),
            (None, Some(b)) => {
                proof {
                    b.lemma_not_null();
                }
                false
            },
            (Some(a), None) => {
                proof {
                    a.lemma_not_null();
                }
                false
            },
        }
    }
}

impl<'a> JsonValue<'a> {
    /// A value that is held is not `null`.
    pub proof fn lemma_not_null(&self)
        ensures
            !(self@ is Null),
    {
    }

    /// A copy of the value.
    pub fn duplicate(&self) -> (r: Self)
        ensures
            r@ == self@,
        decreases self,
    {
        match self {
            JsonValue::Int(v) => JsonValue::Int(*v),
            JsonValue::Float(lit) => JsonValue::Float(lit.duplicate()),
            JsonValue::String(s) => JsonValue::String(cow_copy(s)),
            JsonValue::Bool(b) => JsonValue::Bool(*b),
            JsonValue::Object(o) => JsonValue::Object(o.duplicate()),
            JsonValue::Array(items) => {
                let n = items.len();
                let mut copies: Vec<Json<'a>> = Vec::new();
                let mut i: usize = 0;
                while i < n
                    invariant
                        self is Array && self->Array_0 == *items,
                        n == items@.len(),
                        i <= n,
                        copies@.len() == i,
                        forall|j: int| 0 <= j < i ==> (#[trigger] copies@[j])@ == items@[j]@,
                    decreases n - i,
                {
                    copies.push(items[i].duplicate());
                    i = i + 1;
                }
                let r = JsonValue::Array(copies);
                proof {
                    assert(r@->Array_0 =~= self@->Array_0);
                }
                r
            },
        }
    }

    /// Tells whether two values are the same value.
    pub fn same(&self, other: &JsonValue<'_>) -> (r: bool)
        ensures
            r == (self@ == other@),
        decreases self,
    {
        match (self, other) {
            (JsonValue::Int(a), JsonValue::Int(b)) => *a == *b,
            (JsonValue::Float(a), JsonValue::Float(b)) => a.same(b),
            (JsonValue::String(a), JsonValue::String(b)) => same_text(cow_str(a), cow_str(b)),
            (JsonValue::Bool(a), JsonValue::Bool(b)) => *a == *b,
            (JsonValue::Object(a), JsonValue::Object(b)) => a.same(b),
            (JsonValue::Array(a), JsonValue::Array(b)) => {
                let n = a.len();
                if b.len() != n {
                    proof {
                        assert(self@->Array_0.len() != other@->Array_0.len());
                    }
                    return false;
                }
                let mut i: usize = 0;
                while i < n
                    invariant
                        self is Array && self->Array_0 == *a,
                        other is Array && other->Array_0 == *b,
                        n == a@.len(),
                        n == b@.len(),
                        i <= n,
                        forall|j: int| 0 <= j < i ==> (#[trigger] a@[j])@ == b@[j]@,
                    decreases n - i,
                {
                    if !a[i].same(&b[i]) {
                        proof {
                            assert(self@->Array_0[i as int] != other@->Array_0[i as int]);
                        }
                        return false;
                    }
                    i = i + 1;
                }
                proof {
                    assert(self@->Array_0 =~= other@->Array_0);
                }
                true
            },
            _ => false,
        }
    }
}

/// How two integers stand to each other.
fn order_of_ints(a: i64, b: i64) -> (r: KeyOrder)
    ensures
        r == ints_order(a as int, b as int),
{
    if a < b {
        KeyOrder::Before
    } else if a == b {
        KeyOrder::Same
    } else {
        KeyOrder::After
    }
}

/// How two lengths stand to each other.
fn order_of_lengths(a: usize, b: usize) -> (r: KeyOrder)
    ensures
        r == ints_order(a as int, b as int),
{
    if a < b {
        KeyOrder::Before
    } else if a == b {
        KeyOrder::Same
    } else {
        KeyOrder::After
    }
}

impl<'a> FloatLiteral<'a> {
    /// How two literals stand to each other, byte by byte.
    pub fn compare(&self, other: &FloatLiteral<'_>) -> (r: KeyOrder)
        ensures
            r == keys_order(self@, other@),
    {
        key_order(cow_str(&self.text), cow_str(&other.text))
    }
}

impl<'a> JsonObject<'a> {
    /// How two objects stand to each other: member by member, key before
    /// value.
    pub fn compare(&self, other: &JsonObject<'_>) -> (r: KeyOrder)
        ensures
            r == members_order(self.members(), other.members(), 0),
        decreases self,
    {
        let n = self.entries.len();
        let m = other.entries.len();
        let mut i: usize = 0;
        while i < n && i < m
            invariant
                n == self.entries@.len(),
                m == other.entries@.len(),
                i <= n,
                i <= m,
                members_order(self.members(), other.members(), i as int) == members_order(
                    self.members(),
                    other.members(),
                    0,
                ),
            decreases n - i,
        {
            proof {
                assert(decreases_to!(self => self.entries));
                assert(decreases_to!(self.entries@[i as int] => self.entries@[i as int].1));
            }
            match key_order(cow_str(&self.entries[i].0), cow_str(&other.entries[i].0)) {
                KeyOrder::Same => {},
                KeyOrder::Before => {
                    return KeyOrder::Before;
                },
                KeyOrder::After => {
                    return KeyOrder::After;
                },
            }
            match self.entries[i].1.compare(&other.entries[i].1) {
                KeyOrder::Same => {},
                KeyOrder::Before => {
                    return KeyOrder::Before;
                },
                KeyOrder::After => {
                    return KeyOrder::After;
                },
            }
            i = i + 1;
        }
        order_of_lengths(n, m)
    }
}

impl<'a> Json<'a> {
    /// How two values stand to each other: by kind first, `null` before all
    /// others, then by content.
    pub fn compare(&self, other: &Json<'_>) -> (r: KeyOrder)
        ensures
            r == value_order(self@, other@),
        decreases self,
    {
        match (&self.0, &other.0) {
            (None, None) => KeyOrder::Same,
            (Some(a), Some(b)) => a.compare(b),
            (None, Some(b)) => {
                proof {
                    b.lemma_not_null();
                }
                KeyOrder::Before
            },
            (Some(a), None) => {
                proof {
                    a.lemma_not_null();
                }
                KeyOrder::After
            },
        }
    }
}

impl<'a> JsonValue<'a> {
    /// The place of the value's kind among the kinds.
    fn kind_rank(&self) -> (r: u8)
        ensures
            r == rank(self@),
    {
        match self {
            JsonValue::Int(_) => 1,
            JsonValue::Float(_) => 2,
            JsonValue::String(_) => 3,
            JsonValue::Bool(_) => 4,
            JsonValue::Object(_) => 5,
            JsonValue::Array(_) => 6,
        }
    }

    /// How two values stand to each other: by kind first, then by content.
    pub fn compare(&self, other: &JsonValue<'_>) -> (r: KeyOrder)
        ensures
            r == value_order(self@, other@),
        decreases self,
    {
        match (self, other) {
            (JsonValue::Int(a), JsonValue::Int(b)) => order_of_ints(*a, *b),
            (JsonValue::Float(a), JsonValue::Float(b)) => a.compare(b),
            (JsonValue::String(a), JsonValue::String(b)) => key_order(cow_str(a), cow_str(b)),
            (JsonValue::Bool(a), JsonValue::Bool(b)) => {
                if *a == *b {
                    KeyOrder::Same
                } else if *b {
                    KeyOrder::Before
                } else {
                    KeyOrder::After
                }
            },
            (JsonValue::Object(a), JsonValue::Object(b)) => a.compare(b),
            (JsonValue::Array(a), JsonValue::Array(b)) => {
                let n = a.len();
                let m = b.len();
                let ghost x = self@->Array_0;
                let ghost y = other@->Array_0;
                let mut i: usize = 0;
                while i < n && i < m
                    invariant
                        self is Array && self->Array_0 == *a,
                        other is Array && other->Array_0 == *b,
                        x == self@->Array_0,
                        y == other@->Array_0,
                        n == a@.len(),
                        m == b@.len(),
                        i <= n,
                        i <= m,
                        items_order(x, y, i as int) == items_order(x, y, 0),
                    decreases n - i,
                {
                    match a[i].compare(&b[i]) {
                        KeyOrder::Same => {},
                        KeyOrder::Before => {
                            return KeyOrder::Before;
                        },
                        KeyOrder::After => {
                            return KeyOrder::After;
                        },
                    }
                    i = i + 1;
                }
                order_of_lengths(n, m)
            },
            _ => {
                let x = self.kind_rank();
                let y = other.kind_rank();
                if x < y {
                    KeyOrder::Before
                } else {
                    KeyOrder::After
                }
            },
        }
    }
}

/// Writes `null` at the end of `out`.
fn push_null(out: &mut String)
    ensures
        encode_utf8(final(out)@) == encode_utf8(old(out)@) + null_text(),
{
    let ghost before = encode_utf8(out@);
    push_ascii(out, 0x6E);
    push_ascii(out, 0x75);
    push_ascii(out, 0x6C);
    push_ascii(out, 0x6C);
    proof {
        assert(encode_utf8(out@) =~= before + null_text());
    }
}

/// Writes `true` or `false` at the end of `out`.
fn push_bool(out: &mut String, b: bool)
    ensures
        encode_utf8(final(out)@) == encode_utf8(old(out)@) + (if b {
            true_text()
        } else {
            false_text()
        }),
{
    let ghost before = encode_utf8(out@);
    if b {
        push_ascii(out, 0x74);
        push_ascii(out, 0x72);
        push_ascii(out, 0x75);
        push_ascii(out, 0x65);
        proof {
            assert(encode_utf8(out@) =~= before + true_text());
        }
    } else {
        push_ascii(out, 0x66);
        push_ascii(out, 0x61);
        push_ascii(out, 0x6C);
        push_ascii(out, 0x73);
        push_ascii(out, 0x65);
        proof {
            assert(encode_utf8(out@) =~= before + false_text());
        }
    }
}

/// Writes `text` as a string literal at the end of `out`.
fn push_quoted(codec: &TextCodec, out: &mut String, text: &str)
    ensures
        encode_utf8(final(out)@) == encode_utf8(old(out)@) + quoted(text.spec_bytes()),
{
    let ghost before = encode_utf8(out@);
    let inner = codec.escape(text);
    push_ascii(out, QUOTE);
    push_text(out, cow_str(&inner));
    push_ascii(out, QUOTE);
    proof {
        assert(encode_utf8(out@) =~= before + quoted(text.spec_bytes()));
    }
}

/// Writes a member's key and the `: ` behind it at the end of `out`.
fn push_key(codec: &TextCodec, out: &mut String, key: &str)
    ensures
        encode_utf8(final(out)@) == encode_utf8(old(out)@) + quoted(key.spec_bytes()) + seq![
            COLON,
            SPACE,
        ],
{
    let ghost before = encode_utf8(out@);
    push_quoted(codec, out, key);
    push_ascii(out, COLON);
    push_ascii(out, SPACE);
    proof {
        assert(encode_utf8(out@) =~= before + quoted(key.spec_bytes()) + seq![COLON, SPACE]);
    }
}

impl<'a> Json<'a> {
    /// Writes the compact form of the value at the end of `out`.
    pub fn write_compact(&self, codec: &TextCodec, out: &mut String)
        ensures
            encode_utf8(final(out)@) == encode_utf8(old(out)@) + compact_text(self@),
        decreases self,
    {
        match &self.0 {
            None => push_null(out),
            Some(v) => v.write_compact(codec, out),
        }
    }

    /// The pretty form of the value.
    pub fn pretty_string(&self, codec: &TextCodec) -> (out: String)
        ensures
            encode_utf8(out@) == pretty_text(self@),
        decreases self,
    {
        match &self.0 {
            None => {
                let mut out = String::new();
                proof {
                    assert(encode_utf8(out@) =~= Seq::<u8>::empty());
                }
                push_null(&mut out);
                proof {
                    assert(Seq::<u8>::empty() + null_text() =~= null_text());
                }
                out
            },
            Some(v) => v.pretty_string(codec),
        }
    }
}

impl<'a> JsonValue<'a> {
    /// Writes the compact form of the value at the end of `out`.
    pub fn write_compact(&self, codec: &TextCodec, out: &mut String)
        ensures
            encode_utf8(final(out)@) == encode_utf8(old(out)@) + compact_text(self@),
        decreases self,
    {
        let ghost before = encode_utf8(out@);
        match self {
            JsonValue::Int(v) => push_int(out, *v),
            JsonValue::Float(lit) => push_text(out, lit.as_str()),
            JsonValue::String(s) => push_quoted(codec, out, cow_str(s)),
            JsonValue::Bool(b) => push_bool(out, *b),
            JsonValue::Array(items) => {
                let ghost models = self@->Array_0;
                push_ascii(out, OPEN_BRACKET);
                let n = items.len();
                let mut i: usize = 0;
                while i < n
                    invariant
                        self is Array && self->Array_0 == *items,
                        n == items@.len(),
                        i <= n,
                        models.len() == n,
                        forall|j: int| 0 <= j < n ==> models[j] == (#[trigger] items@[j])@,
                        encode_utf8(out@) == before + seq![OPEN_BRACKET] + compact_items(
                            models,
                            i as int,
                        ),
                    decreases n - i,
                {
                    let ghost sofar = encode_utf8(out@);
                    if i > 0 {
                        push_ascii(out, COMMA);
                        push_ascii(out, SPACE);
                    }
                    items[i].write_compact(codec, out);
                    i = i + 1;
                    proof {
                        assert(encode_utf8(out@) =~= before + seq![OPEN_BRACKET] + compact_items(
                            models,
                            i as int,
                        ));
                    }
                }
                push_ascii(out, CLOSE_BRACKET);
                proof {
                    assert(encode_utf8(out@) =~= before + compact_text(self@));
                }
            },
            JsonValue::Object(o) => {
                let ghost models = o.members();
                push_ascii(out, OPEN_BRACE);
                let n = o.entries.len();
                let mut i: usize = 0;
                while i < n
                    invariant
                        self is Object && self->Object_0 == *o,
                        n == o.entries@.len(),
                        i <= n,
                        models == o.members(),
                        encode_utf8(out@) == before + seq![OPEN_BRACE] + compact_members(
                            models,
                            i as int,
                        ),
                    decreases n - i,
                {
                    if i > 0 {
                        push_ascii(out, COMMA);
                        push_ascii(out, SPACE);
                    }
                    push_key(codec, out, cow_str(&o.entries[i].0));
                    proof {
                        assert(decreases_to!(self->Object_0 => o.entries));
                        assert(decreases_to!(o.entries@[i as int] => o.entries@[i as int].1));
                    }
                    o.entries[i].1.write_compact(codec, out);
                    i = i + 1;
                    proof {
                        assert(encode_utf8(out@) =~= before + seq![OPEN_BRACE] + compact_members(
                            models,
                            i as int,
                        ));
                    }
                }
                push_ascii(out, CLOSE_BRACE);
                proof {
                    assert(encode_utf8(out@) =~= before + compact_text(self@));
                }
            },
        }
    }

    /// The pretty form of the value.
    pub fn pretty_string(&self, codec: &TextCodec) -> (out: String)
        ensures
            encode_utf8(out@) == pretty_text(self@),
        decreases self,
    {
        let mut out = String::new();
        proof {
            assert(encode_utf8(out@) =~= Seq::<u8>::empty());
        }
        match self {
            JsonValue::Array(items) => {
                let ghost models = self@->Array_0;
                push_ascii(&mut out, OPEN_BRACKET);
                push_ascii(&mut out, NEWLINE);
                let mut pad = PadAdapter::from(out);
                pad.mark_line_start();
                let n = items.len();
                let mut i: usize = 0;
                while i < n
                    invariant
                        self is Array && self->Array_0 == *items,
                        n == items@.len(),
                        i <= n,
                        models.len() == n,
                        forall|j: int| 0 <= j < n ==> models[j] == (#[trigger] items@[j])@,
                        pad.text() == seq![OPEN_BRACKET, NEWLINE] + indented(
                            pretty_items(models, i as int),
                            true,
                        ),
                        pad.at_line_start() == ends_line(pretty_items(models, i as int), true),
                    decreases n - i,
                {
                    let ghost sofar = pretty_items(models, i as int);
                    if i > 0 {
                        proof {
                            lemma_indented_concat(sofar, pretty_separator(), true);
                        }
                        pad.write_str(separator_str());
                    }
                    let ghost joined = if i > 0 {
                        sofar + pretty_separator()
                    } else {
                        sofar
                    };
                    let child = items[i].pretty_string(codec);
                    proof {
                        lemma_indented_concat(joined, pretty_text(models[i as int]), true);
                    }
                    pad.write_str(child.as_str());
                    i = i + 1;
                    proof {
                        assert(pretty_items(models, i as int) =~= joined + pretty_text(
                            models[i - 1],
                        ));
                        assert(pad.text() =~= seq![OPEN_BRACKET, NEWLINE] + indented(
                            pretty_items(models, i as int),
                            true,
                        ));
                    }
                }
                let mut out = pad.into_inner();
                push_ascii(&mut out, NEWLINE);
                push_ascii(&mut out, CLOSE_BRACKET);
                proof {
                    assert(encode_utf8(out@) =~= pretty_text(self@));
                }
                out
            },
            JsonValue::Object(o) => {
                let ghost models = o.members();
                push_ascii(&mut out, OPEN_BRACE);
                push_ascii(&mut out, NEWLINE);
                let mut pad = PadAdapter::from(out);
                pad.mark_line_start();
                let n = o.entries.len();
                let mut i: usize = 0;
                while i < n
                    invariant
                        self is Object && self->Object_0 == *o,
                        n == o.entries@.len(),
                        i <= n,
                        models == o.members(),
                        pad.text() == seq![OPEN_BRACE, NEWLINE] + indented(
                            pretty_members(models, i as int),
                            true,
                        ),
                        pad.at_line_start() == ends_line(pretty_members(models, i as int), true),
                    decreases n - i,
                {
                    let ghost sofar = pretty_members(models, i as int);
                    if i > 0 {
                        proof {
                            lemma_indented_concat(sofar, pretty_separator(), true);
                        }
                        pad.write_str(separator_str());
                    }
                    let ghost joined = if i > 0 {
                        sofar + pretty_separator()
                    } else {
                        sofar
                    };
                    let mut member = String::new();
                    proof {
                        assert(encode_utf8(member@) =~= Seq::<u8>::empty());
                    }
                    push_key(codec, &mut member, cow_str(&o.entries[i].0));
                    proof {
                        assert(decreases_to!(self->Object_0 => o.entries));
                        assert(decreases_to!(o.entries@[i as int] => o.entries@[i as int].1));
                    }
                    let child = o.entries[i].1.pretty_string(codec);
                    push_text(&mut member, child.as_str());
                    proof {
                        assert(encode_utf8(member@) =~= member_text(
                            models[i as int].0,
                            pretty_text(models[i as int].1),
                        ));
                        lemma_indented_concat(joined, encode_utf8(member@), true);
                    }
                    pad.write_str(member.as_str());
                    i = i + 1;
                    proof {
                        assert(pretty_members(models, i as int) =~= joined + member_text(
                            models[i - 1].0,
                            pretty_text(models[i - 1].1),
                        ));
                        assert(pad.text() =~= seq![OPEN_BRACE, NEWLINE] + indented(
                            pretty_members(models, i as int),
                            true,
                        ));
                    }
                }
                let mut out = pad.into_inner();
                push_ascii(&mut out, NEWLINE);
                push_ascii(&mut out, CLOSE_BRACE);
                proof {
                    assert(encode_utf8(out@) =~= pretty_text(self@));
                }
                out
            },
            _ => {
                self.write_compact(codec, &mut out);
                proof {
                    assert(Seq::<u8>::empty() + compact_text(self@) =~= compact_text(self@));
                }
                out
            },
        }
    }
}

/// `,` and a line break, as text.
fn separator_str() -> (s: &'static str)
    ensures
        s.spec_bytes() == pretty_separator(),
{
    let s = ",\n";
    proof {
        reveal_strlit(",\n");
        assert(is_ascii_chars(s@));
        is_ascii_chars_encode_utf8(s@);
        assert(s.spec_bytes() =~= pretty_separator());
    }
    s
}

impl<'a> JsonObject<'a> {
    /// The value of the member with the key `key`, if there is one.
    pub fn get(&self, key: &str) -> (r: Option<&Json<'a>>)
        ensures
            match r {
                Some(v) => exists|i: int|
                    0 <= i < self.members().len() && (#[trigger] self.members()[i]).0
                        == key.spec_bytes() && v@ == self.members()[i].1,
                None => forall|i: int|
                    0 <= i < self.members().len() ==> (#[trigger] self.members()[i]).0
                        != key.spec_bytes(),
            },
    {
        let n = self.entries.len();
        let mut i: usize = 0;
        while i < n
            invariant
                n == self.entries@.len(),
                i <= n,
                forall|j: int| 0 <= j < i ==> (#[trigger] self.members()[j]).0 != key.spec_bytes(),
            decreases n - i,
        {
            match key_order(cow_str(&self.entries[i].0), key) {
                KeyOrder::Same => {
                    proof {
                        assert(self.members()[i as int].0 == key.spec_bytes());
                    }
                    return Some(&self.entries[i].1);
                },
                _ => {},
            }
            i = i + 1;
        }
        None
    }

    /// The object that a list of pairs makes, each pair given in turn: of
    /// two pairs with one key the later one stays.
    pub fn from_pairs(pairs: Vec<(Cow<'a, str>, Json<'a>)>) -> (o: Self)
        ensures
            o.members() == members_of(pairs_model(pairs@)),
            o.wf(),
    {
        let ghost all = pairs@;
        let mut rest = pairs;
        let mut turned: Vec<(Cow<'a, str>, Json<'a>)> = Vec::new();
        while rest.len() > 0
            invariant
                rest@.len() + turned@.len() == all.len(),
                forall|i: int| 0 <= i < rest@.len() ==> rest@[i] == all[i],
                forall|i: int|
                    0 <= i < turned@.len() ==> turned@[i] == all[all.len() - 1 - i],
            decreases rest@.len(),
        {
            match rest.pop() {
                Some(pair) => {
                    turned.push(pair);
                },
                None => {},
            }
        }
        let mut o = JsonObject::new();
        let ghost mut done: int = 0;
        proof {
            assert(pairs_model(all).subrange(0, 0) =~= Seq::empty());
        }
        while turned.len() > 0
            invariant
                0 <= done <= all.len(),
                turned@.len() == all.len() - done,
                forall|i: int|
                    0 <= i < turned@.len() ==> turned@[i] == all[all.len() - 1 - i],
                o.members() == members_of(pairs_model(all).subrange(0, done)),
                o.wf(),
            decreases turned@.len(),
        {
            match turned.pop() {
                Some(pair) => {
                    proof {
                        let upto = pairs_model(all).subrange(0, done + 1);
                        assert(upto.drop_last() =~= pairs_model(all).subrange(0, done));
                        assert(upto.last() == pairs_model(all)[done]);
                        assert(pair == all[done]);
                    }
                    o.insert(pair.0, pair.1);
                    proof {
                        done = done + 1;
                    }
                },
                None => {},
            }
        }
        proof {
            assert(pairs_model(all).subrange(0, all.len() as int) =~= pairs_model(all));
        }
        o
    }
}

/// The keys and values that a list of pairs stands for.
pub open spec fn pairs_model(pairs: Seq<(Cow<'_, str>, Json<'_>)>) -> Seq<(Seq<u8>, Model)> {
    Seq::new(pairs.len(), |i: int| (encode_utf8(pairs[i].0@), pairs[i].1@))
}

/// An integer as a value.
impl<'a> From<i64> for JsonValue<'a> {
    fn from(v: i64) -> (r: Self) {
        JsonValue::Int(v)
    }
}

impl<'a> vstd::std_specs::convert::FromSpecImpl<i64> for JsonValue<'a> {
    open spec fn obeys_from_spec() -> bool {
        true
    }

    open spec fn from_spec(v: i64) -> Self {
        JsonValue::Int(v)
    }
}

/// A truth value as a value.
impl<'a> From<bool> for JsonValue<'a> {
    fn from(v: bool) -> (r: Self) {
        JsonValue::Bool(v)
    }
}

impl<'a> vstd::std_specs::convert::FromSpecImpl<bool> for JsonValue<'a> {
    open spec fn obeys_from_spec() -> bool {
        true
    }

    open spec fn from_spec(v: bool) -> Self {
        JsonValue::Bool(v)
    }
}

/// A borrowed text as a string value.
impl<'a> From<&'a str> for JsonValue<'a> {
    fn from(v: &'a str) -> (r: Self) {
        JsonValue::String(Cow::Borrowed(v))
    }
}

impl<'a> vstd::std_specs::convert::FromSpecImpl<&'a str> for JsonValue<'a> {
    open spec fn obeys_from_spec() -> bool {
        true
    }

    open spec fn from_spec(v: &'a str) -> Self {
        JsonValue::String(Cow::Borrowed(v))
    }
}

/// An owned text as a string value.
impl<'a> From<std::string::String> for JsonValue<'a> {
    fn from(v: std::string::String) -> (r: Self) {
        JsonValue::String(Cow::Owned(v))
    }
}

impl<'a> vstd::std_specs::convert::FromSpecImpl<std::string::String> for JsonValue<'a> {
    open spec fn obeys_from_spec() -> bool {
        true
    }

    open spec fn from_spec(v: std::string::String) -> Self {
        JsonValue::String(Cow::Owned(v))
    }
}

/// A text as a string value.
impl<'a> From<Cow<'a, str>> for JsonValue<'a> {
    fn from(v: Cow<'a, str>) -> (r: Self) {
        JsonValue::String(v)
    }
}

impl<'a> vstd::std_specs::convert::FromSpecImpl<Cow<'a, str>> for JsonValue<'a> {
    open spec fn obeys_from_spec() -> bool {
        true
    }

    open spec fn from_spec(v: Cow<'a, str>) -> Self {
        JsonValue::String(v)
    }
}

/// A number literal as a value.
impl<'a> From<FloatLiteral<'a>> for JsonValue<'a> {
    fn from(v: FloatLiteral<'a>) -> (r: Self) {
        JsonValue::Float(v)
    }
}

impl<'a> vstd::std_specs::convert::FromSpecImpl<FloatLiteral<'a>> for JsonValue<'a> {
    open spec fn obeys_from_spec() -> bool {
        true
    }

    open spec fn from_spec(v: FloatLiteral<'a>) -> Self {
        JsonValue::Float(v)
    }
}

/// A sequence of values as an array.
impl<'a> From<Vec<Json<'a>>> for JsonValue<'a> {
    fn from(v: Vec<Json<'a>>) -> (r: Self) {
        JsonValue::Array(v)
    }
}

impl<'a> vstd::std_specs::convert::FromSpecImpl<Vec<Json<'a>>> for JsonValue<'a> {
    open spec fn obeys_from_spec() -> bool {
        true
    }

    open spec fn from_spec(v: Vec<Json<'a>>) -> Self {
        JsonValue::Array(v)
    }
}

/// Members as an object.
impl<'a> From<JsonObject<'a>> for JsonValue<'a> {
    fn from(v: JsonObject<'a>) -> (r: Self) {
        JsonValue::Object(v)
    }
}

impl<'a> vstd::std_specs::convert::FromSpecImpl<JsonObject<'a>> for JsonValue<'a> {
    open spec fn obeys_from_spec() -> bool {
        true
    }

    open spec fn from_spec(v: JsonObject<'a>) -> Self {
        JsonValue::Object(v)
    }
}

/// A value or, with `None`, `null`.
impl<'a> From<Option<JsonValue<'a>>> for Json<'a> {
    fn from(v: Option<JsonValue<'a>>) -> (r: Self) {
        Json(v)
    }
}

impl<'a> vstd::std_specs::convert::FromSpecImpl<Option<JsonValue<'a>>> for Json<'a> {
    open spec fn obeys_from_spec() -> bool {
        true
    }

    open spec fn from_spec(v: Option<JsonValue<'a>>) -> Self {
        Json(v)
    }
}

/// A value that is not `null`.
impl<'a> From<JsonValue<'a>> for Json<'a> {
    fn from(v: JsonValue<'a>) -> (r: Self) {
        Json(Some(v))
    }
}

impl<'a> vstd::std_specs::convert::FromSpecImpl<JsonValue<'a>> for Json<'a> {
    open spec fn obeys_from_spec() -> bool {
        true
    }

    open spec fn from_spec(v: JsonValue<'a>) -> Self {
        Json(Some(v))
    }
}

/// An integer as a value.
impl<'a> From<i64> for Json<'a> {
    fn from(v: i64) -> (r: Self) {
        Json(Some(JsonValue::Int(v)))
    }
}

impl<'a> vstd::std_specs::convert::FromSpecImpl<i64> for Json<'a> {
    open spec fn obeys_from_spec() -> bool {
        true
    }

    open spec fn from_spec(v: i64) -> Self {
        Json(Some(JsonValue::Int(v)))
    }
}

/// A truth value as a value.
impl<'a> From<bool> for Json<'a> {
    fn from(v: bool) -> (r: Self) {
        Json(Some(JsonValue::Bool(v)))
    }
}

impl<'a> vstd::std_specs::convert::FromSpecImpl<bool> for Json<'a> {
    open spec fn obeys_from_spec() -> bool {
        true
    }

    open spec fn from_spec(v: bool) -> Self {
        Json(Some(JsonValue::Bool(v)))
    }
}

/// A borrowed text as a string value.
impl<'a> From<&'a str> for Json<'a> {
    fn from(v: &'a str) -> (r: Self) {
        Json(Some(JsonValue::String(Cow::Borrowed(v))))
    }
}

impl<'a> vstd::std_specs::convert::FromSpecImpl<&'a str> for Json<'a> {
    open spec fn obeys_from_spec() -> bool {
        true
    }

    open spec fn from_spec(v: &'a str) -> Self {
        Json(Some(JsonValue::String(Cow::Borrowed(v))))
    }
}

/// An owned text as a string value.
impl<'a> From<std::string::String> for Json<'a> {
    fn from(v: std::string::String) -> (r: Self) {
        Json(Some(JsonValue::String(Cow::Owned(v))))
    }
}

impl<'a> vstd::std_specs::convert::FromSpecImpl<std::string::String> for Json<'a> {
    open spec fn obeys_from_spec() -> bool {
        true
    }

    open spec fn from_spec(v: std::string::String) -> Self {
        Json(Some(JsonValue::String(Cow::Owned(v))))
    }
}

/// A number literal as a value.
impl<'a> From<FloatLiteral<'a>> for Json<'a> {
    fn from(v: FloatLiteral<'a>) -> (r: Self) {
        Json(Some(JsonValue::Float(v)))
    }
}

impl<'a> vstd::std_specs::convert::FromSpecImpl<FloatLiteral<'a>> for Json<'a> {
    open spec fn obeys_from_spec() -> bool {
        true
    }

    open spec fn from_spec(v: FloatLiteral<'a>) -> Self {
        Json(Some(JsonValue::Float(v)))
    }
}

/// A sequence of values as an array.
impl<'a> From<Vec<Json<'a>>> for Json<'a> {
    fn from(v: Vec<Json<'a>>) -> (r: Self) {
        Json(Some(JsonValue::Array(v)))
    }
}

impl<'a> vstd::std_specs::convert::FromSpecImpl<Vec<Json<'a>>> for Json<'a> {
    open spec fn obeys_from_spec() -> bool {
        true
    }

    open spec fn from_spec(v: Vec<Json<'a>>) -> Self {
        Json(Some(JsonValue::Array(v)))
    }
}

/// Members as an object.
impl<'a> From<JsonObject<'a>> for Json<'a> {
    fn from(v: JsonObject<'a>) -> (r: Self) {
        Json(Some(JsonValue::Object(v)))
    }
}

impl<'a> vstd::std_specs::convert::FromSpecImpl<JsonObject<'a>> for Json<'a> {
    open spec fn obeys_from_spec() -> bool {
        true
    }

    open spec fn from_spec(v: JsonObject<'a>) -> Self {
        Json(Some(JsonValue::Object(v)))
    }
}

} // verus!
